use radar::color::{find_closest_color, get_epd_color, Rgb};
use radar::dither::apply_floyd_steinberg;
use radar::pack::pixmap_to_epd_bin;
use radar::raster::Raster;
use radar::svg::render_no_flight_svg;

const BLACK: Rgb = Rgb { r: 0, g: 0, b: 0 };
const WHITE: Rgb = Rgb { r: 255, g: 255, b: 255 };
const YELLOW: Rgb = Rgb { r: 255, g: 255, b: 0 };
const RED: Rgb = Rgb { r: 255, g: 0, b: 0 };
const BLUE: Rgb = Rgb { r: 0, g: 0, b: 255 };
const GREEN: Rgb = Rgb { r: 0, g: 255, b: 0 };

const PALETTE: [Rgb; 6] = [BLACK, WHITE, YELLOW, RED, BLUE, GREEN];

const SCALE: i64 = 65536;

fn in_palette(c: Rgb) -> bool {
    PALETTE.iter().any(|p| *p == c)
}

#[test]
fn test_render_no_flight_svg() {
    let svg = render_no_flight_svg();
    assert!(svg.contains("No flights overhead"));
}

#[test]
fn quantizer_palette_colors_are_fixed_points() {
    for p in PALETTE {
        let q = find_closest_color(
            p.r as i64 * SCALE,
            p.g as i64 * SCALE,
            p.b as i64 * SCALE,
        );
        assert_eq!(q, p);
    }
}

#[test]
fn quantizer_tie_prefers_earlier_palette_entry() {
    // (127.5, 0, 0) is exactly halfway between black and red: black wins
    // because it is declared first.
    let q = find_closest_color(127 * SCALE + SCALE / 2, 0, 0);
    assert_eq!(q, BLACK);
}

#[test]
fn quantizer_picks_nearest_for_mixed_color() {
    // (200, 50, 100) is nearest to red among the six entries.
    let q = find_closest_color(200 * SCALE, 50 * SCALE, 100 * SCALE);
    assert_eq!(q, RED);
    // mid gray (128, 128, 128) is a hair closer to white than to black.
    let q2 = find_closest_color(128 * SCALE, 128 * SCALE, 128 * SCALE);
    assert_eq!(q2, WHITE);
    // unclamped negative drift still lands in the palette.
    let q3 = find_closest_color(-40 * SCALE, -3 * SCALE, 12 * SCALE);
    assert_eq!(q3, BLACK);
}

#[test]
fn epd_color_codes_match_table() {
    assert_eq!(get_epd_color(BLACK), 0);
    assert_eq!(get_epd_color(WHITE), 1);
    assert_eq!(get_epd_color(YELLOW), 2);
    assert_eq!(get_epd_color(RED), 3);
    assert_eq!(get_epd_color(BLUE), 5);
    assert_eq!(get_epd_color(GREEN), 6);
    // a color outside the palette defaults to white's code
    assert_eq!(get_epd_color(Rgb { r: 12, g: 34, b: 56 }), 1);
}

#[test]
fn raster_new_rejects_mismatched_length() {
    assert!(Raster::new(2, 2, vec![BLACK; 3]).is_none());
    assert!(Raster::new(2, 2, vec![BLACK; 4]).is_some());
    assert!(Raster::new(0, 5, vec![]).is_some());
}

#[test]
fn dither_zero_sized_raster() {
    let src = Raster::new(0, 0, vec![]).unwrap();
    let out = apply_floyd_steinberg(&src);
    assert_eq!(out.width, 0);
    assert_eq!(out.height, 0);
    assert_eq!(out.pixels.len(), 0);
}

#[test]
fn dither_single_pixel() {
    let src = Raster::new(1, 1, vec![Rgb { r: 200, g: 50, b: 100 }]).unwrap();
    let out = apply_floyd_steinberg(&src);
    assert_eq!(out.pixels, vec![RED]);
}

#[test]
fn dither_odd_dimensions_all_palette() {
    let pixels = vec![
        Rgb { r: 17, g: 200, b: 9 },
        Rgb { r: 250, g: 250, b: 250 },
        Rgb { r: 128, g: 0, b: 190 },
        Rgb { r: 40, g: 222, b: 130 },
        Rgb { r: 99, g: 99, b: 99 },
        Rgb { r: 255, g: 254, b: 2 },
        Rgb { r: 0, g: 0, b: 1 },
        Rgb { r: 77, g: 1, b: 255 },
        Rgb { r: 180, g: 90, b: 45 },
        Rgb { r: 5, g: 250, b: 250 },
        Rgb { r: 250, g: 5, b: 250 },
        Rgb { r: 250, g: 250, b: 5 },
        Rgb { r: 1, g: 2, b: 3 },
        Rgb { r: 254, g: 1, b: 1 },
        Rgb { r: 127, g: 128, b: 129 },
    ];
    let src = Raster::new(5, 3, pixels).unwrap();
    let out = apply_floyd_steinberg(&src);
    assert_eq!(out.width, 5);
    assert_eq!(out.height, 3);
    assert_eq!(out.pixels.len(), 15);
    for p in &out.pixels {
        assert!(in_palette(*p));
    }
}

#[test]
fn dither_uniform_palette_input_unchanged() {
    // every pixel already sits exactly on a palette entry, so quantization
    // error is zero everywhere and the output equals the input
    for c in [RED, GREEN, BLUE, YELLOW, BLACK, WHITE] {
        let src = Raster::new(5, 3, vec![c; 15]).unwrap();
        let out = apply_floyd_steinberg(&src);
        assert_eq!(out.pixels, vec![c; 15]);
    }
}

#[test]
fn dither_near_black_goes_black() {
    // 4x4 of RGB (10,10,10): black dominates at this intensity and the
    // accumulated error never pushes any pixel toward another entry
    let src = Raster::new(4, 4, vec![Rgb { r: 10, g: 10, b: 10 }; 16]).unwrap();
    let out = apply_floyd_steinberg(&src);
    assert_eq!(out.pixels, vec![BLACK; 16]);
}

#[test]
fn pack_buffer_size_fixed() {
    for (w, h) in [(1600usize, 1200usize), (10, 10), (2000, 3000)] {
        let src = Raster::new(w, h, vec![WHITE; w * h]).unwrap();
        let out = pixmap_to_epd_bin(&src);
        assert_eq!(out.len(), 960000);
    }
}

#[test]
fn pack_empty_raster_all_zero() {
    let src = Raster::new(0, 0, vec![]).unwrap();
    let out = pixmap_to_epd_bin(&src);
    assert_eq!(out.len(), 960000);
    assert!(out.iter().all(|b| *b == 0));
}

#[test]
fn pack_nibble_placement() {
    // A 1-wide, 2-tall raster: destination pixel (0,0) reads source pixel
    // (0,1) into the high nibble of byte 0, and destination (1,0) reads
    // source pixel (0,0) into the low nibble of the same byte.
    let src = Raster::new(1, 2, vec![BLACK, WHITE]).unwrap();
    let out = pixmap_to_epd_bin(&src);
    assert_eq!(out[0], 0x10); // white (1) high, black (0) low
    let src2 = Raster::new(1, 2, vec![WHITE, BLACK]).unwrap();
    let out2 = pixmap_to_epd_bin(&src2);
    assert_eq!(out2[0], 0x01); // black (0) high, white (1) low
}

#[test]
fn pack_strip_boundary() {
    // 1x601 source: destination x 599 lands in strip 0 at local x 599
    // (byte 299, low nibble), destination x 600 in strip 1 at local x 0
    // (byte 480000, high nibble).
    let mut pixels = vec![WHITE; 601];
    pixels[0] = YELLOW; // read by destinations x >= 600 of row 0
    pixels[1] = RED; // read by destination x 599 of row 0
    let src = Raster::new(1, 601, pixels).unwrap();
    let out = pixmap_to_epd_bin(&src);
    // byte 299 of strip 0: high nibble white from x 598, low nibble red
    assert_eq!(out[299], 0x13);
    // byte 0 of strip 1: both nibbles yellow (x 600 and 601 both saturate
    // to source row 0)
    assert_eq!(out[480000], 0x22);
}

#[test]
fn dither_then_pack_near_black_scene() {
    // end to end: a near-black source dithers to all black, whose panel
    // code is 0, so the packed buffer is all zero like an empty panel
    let src = Raster::new(4, 4, vec![Rgb { r: 10, g: 10, b: 10 }; 16]).unwrap();
    let dithered = apply_floyd_steinberg(&src);
    let out = pixmap_to_epd_bin(&dithered);
    assert_eq!(out.len(), 960000);
    assert!(out.iter().all(|b| *b == 0));
}
