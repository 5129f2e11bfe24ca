//! The fixed six-entry panel palette, its 4-bit output codes, and the
//! nearest-color quantizer.

use vstd::prelude::*;

verus! {

/// One pixel: 8-bit red, green and blue intensities.
#[derive(Clone, Copy, Debug, PartialEq, Eq, Structural)]
pub struct Rgb {
    pub r: u8,
    pub g: u8,
    pub b: u8,
}

/// Fixed-point scale of the dithering working values: a channel intensity v
/// is stored as v * SCALE so that diffused error keeps fractional precision.
pub const SCALE: i64 = 65536;

/// Largest scaled channel intensity, 255 * SCALE.
pub const FX_MAX: i64 = 255 * SCALE;

/// The palette, in declaration order: black, white, yellow, red, blue,
/// green.  Quantizer ties fall toward earlier entries.
pub open spec fn palette_at(i: int) -> Rgb {
    if i == 0 {
        Rgb { r: 0, g: 0, b: 0 }
    } else if i == 1 {
        Rgb { r: 255, g: 255, b: 255 }
    } else if i == 2 {
        Rgb { r: 255, g: 255, b: 0 }
    } else if i == 3 {
        Rgb { r: 255, g: 0, b: 0 }
    } else if i == 4 {
        Rgb { r: 0, g: 0, b: 255 }
    } else {
        Rgb { r: 0, g: 255, b: 0 }
    }
}

pub open spec fn is_palette_color(c: Rgb) -> bool {
    ||| c == palette_at(0)
    ||| c == palette_at(1)
    ||| c == palette_at(2)
    ||| c == palette_at(3)
    ||| c == palette_at(4)
    ||| c == palette_at(5)
}

/// The 4-bit code the panel controller uses for each palette color.  Code 4
/// is a reserved panel code and never produced; a color outside the palette
/// defaults to the white code.
pub open spec fn code_of(c: Rgb) -> u8 {
    if c == palette_at(0) {
        0
    } else if c == palette_at(1) {
        1
    } else if c == palette_at(2) {
        2
    } else if c == palette_at(3) {
        3
    } else if c == palette_at(4) {
        5
    } else if c == palette_at(5) {
        6
    } else {
        1
    }
}

/// Map a pixel color to its panel code; exact palette matches get their
/// code, everything else falls back to white's code.
pub fn get_epd_color(rgb: Rgb) -> (code: u8)
    ensures
        code == code_of(rgb),
        code <= 6,
{
    if rgb == (Rgb { r: 0, g: 0, b: 0 }) {
        0
    } else if rgb == (Rgb { r: 255, g: 255, b: 255 }) {
        1
    } else if rgb == (Rgb { r: 255, g: 255, b: 0 }) {
        2
    } else if rgb == (Rgb { r: 255, g: 0, b: 0 }) {
        3
    } else if rgb == (Rgb { r: 0, g: 0, b: 255 }) {
        5
    } else if rgb == (Rgb { r: 0, g: 255, b: 0 }) {
        6
    } else {
        1
    }
}

/// Squared Euclidean distance in scaled RGB space between a working value
/// (r, g, b) and the palette entry p.
pub open spec fn dist2(r: int, g: int, b: int, p: Rgb) -> int {
    let dr = r - (p.r as int) * (SCALE as int);
    let dg = g - (p.g as int) * (SCALE as int);
    let db = b - (p.b as int) * (SCALE as int);
    dr * dr + dg * dg + db * db
}

/// First-minimum scan over palette entries i..6 with current best entry
/// `best`: a later entry wins only with a strictly smaller distance.
pub open spec fn nearest_from(r: int, g: int, b: int, i: int, best: int) -> int
    decreases 6 - i,
{
    if i >= 6 {
        best
    } else if dist2(r, g, b, palette_at(i)) < dist2(r, g, b, palette_at(best)) {
        nearest_from(r, g, b, i + 1, i)
    } else {
        nearest_from(r, g, b, i + 1, best)
    }
}

/// Index of the palette entry nearest to (r, g, b), earliest entry on ties.
pub open spec fn nearest_idx(r: int, g: int, b: int) -> int {
    nearest_from(r, g, b, 1, 0)
}

proof fn lemma_nearest_from_range(r: int, g: int, b: int, i: int, best: int)
    requires
        0 <= i,
        0 <= best < 6,
    ensures
        0 <= nearest_from(r, g, b, i, best) < 6,
    decreases 6 - i,
{
    if i < 6 {
        if dist2(r, g, b, palette_at(i)) < dist2(r, g, b, palette_at(best)) {
            lemma_nearest_from_range(r, g, b, i + 1, i);
        } else {
            lemma_nearest_from_range(r, g, b, i + 1, best);
        }
    }
}

/// Law: the quantizer is total and deterministic; every input has exactly
/// one nearest palette entry, and its index lies in 0..6.
pub proof fn lemma_quantizer_in_palette(r: int, g: int, b: int)
    ensures
        0 <= nearest_idx(r, g, b) < 6,
        is_palette_color(palette_at(nearest_idx(r, g, b))),
{
    lemma_nearest_from_range(r, g, b, 1, 0);
}

proof fn lemma_dist2_nonneg(r: int, g: int, b: int, p: Rgb)
    ensures
        dist2(r, g, b, p) >= 0,
        dist2(r, g, b, p) == 0 ==> r == (p.r as int) * (SCALE as int) && g == (p.g as int) * (
        SCALE as int) && b == (p.b as int) * (SCALE as int),
{
    let dr = r - (p.r as int) * (SCALE as int);
    let dg = g - (p.g as int) * (SCALE as int);
    let db = b - (p.b as int) * (SCALE as int);
    assert(dr * dr >= 0 && (dr * dr == 0 ==> dr == 0)) by (nonlinear_arith);
    assert(dg * dg >= 0 && (dg * dg == 0 ==> dg == 0)) by (nonlinear_arith);
    assert(db * db >= 0 && (db * db == 0 ==> db == 0)) by (nonlinear_arith);
}

proof fn lemma_nearest_from_min(r: int, g: int, b: int, i: int, best: int)
    requires
        0 <= i,
        0 <= best < 6,
    ensures
        ({
            let res = nearest_from(r, g, b, i, best);
            &&& dist2(r, g, b, palette_at(res)) <= dist2(r, g, b, palette_at(best))
            &&& forall|j: int|
                i <= j < 6 ==> dist2(r, g, b, palette_at(res)) <= dist2(
                    r,
                    g,
                    b,
                    #[trigger] palette_at(j),
                )
        }),
    decreases 6 - i,
{
    if i < 6 {
        if dist2(r, g, b, palette_at(i)) < dist2(r, g, b, palette_at(best)) {
            lemma_nearest_from_min(r, g, b, i + 1, i);
        } else {
            lemma_nearest_from_min(r, g, b, i + 1, best);
        }
    }
}

/// Law: the quantizer leaves palette colors fixed.  A value that sits
/// exactly on a palette entry is at distance zero from it, every distance is
/// nonnegative, and distance zero pins down the entry's channels, so the
/// first-minimum scan returns that entry itself.
pub proof fn lemma_quantizer_fixed_point(c: Rgb)
    requires
        is_palette_color(c),
    ensures
        palette_at(
            nearest_idx(
                (c.r as int) * (SCALE as int),
                (c.g as int) * (SCALE as int),
                (c.b as int) * (SCALE as int),
            ),
        ) == c,
{
    let r = (c.r as int) * (SCALE as int);
    let g = (c.g as int) * (SCALE as int);
    let b = (c.b as int) * (SCALE as int);
    let res = nearest_idx(r, g, b);
    lemma_quantizer_in_palette(r, g, b);
    lemma_nearest_from_min(r, g, b, 1, 0);
    lemma_dist2_nonneg(r, g, b, palette_at(res));
    assert(exists|k: int| 0 <= k < 6 && c == palette_at(k)) by {
        if c == palette_at(0) {
            assert(c == palette_at(0int));
        } else if c == palette_at(1) {
            assert(c == palette_at(1int));
        } else if c == palette_at(2) {
            assert(c == palette_at(2int));
        } else if c == palette_at(3) {
            assert(c == palette_at(3int));
        } else if c == palette_at(4) {
            assert(c == palette_at(4int));
        } else {
            assert(c == palette_at(5int));
        }
    }
    let k = choose|k: int| 0 <= k < 6 && c == palette_at(k);
    assert(dist2(r, g, b, palette_at(k)) == 0) by {
        let dr = r - (palette_at(k).r as int) * (SCALE as int);
        let dg = g - (palette_at(k).g as int) * (SCALE as int);
        let db = b - (palette_at(k).b as int) * (SCALE as int);
        assert(dr == 0 && dg == 0 && db == 0);
        assert(dr * dr == 0 && dg * dg == 0 && db * db == 0) by (nonlinear_arith)
            requires
                dr == 0 && dg == 0 && db == 0,
        ;
    }
    assert(dist2(r, g, b, palette_at(res)) <= 0);
    assert(palette_at(res).r == c.r && palette_at(res).g == c.g && palette_at(res).b == c.b) by {
        assert((palette_at(res).r as int) * (SCALE as int) == (c.r as int) * (SCALE as int));
    }
}

/// Exact palette entry at index i.
pub fn palette_entry(i: usize) -> (c: Rgb)
    requires
        i < 6,
    ensures
        c == palette_at(i as int),
{
    if i == 0 {
        Rgb { r: 0, g: 0, b: 0 }
    } else if i == 1 {
        Rgb { r: 255, g: 255, b: 255 }
    } else if i == 2 {
        Rgb { r: 255, g: 255, b: 0 }
    } else if i == 3 {
        Rgb { r: 255, g: 0, b: 0 }
    } else if i == 4 {
        Rgb { r: 0, g: 0, b: 255 }
    } else {
        Rgb { r: 0, g: 255, b: 0 }
    }
}

/// Bound on quantizer inputs that keeps the squared distance inside i64.
pub const QUANT_IN_MAX: i64 = 1000000000;

fn dist2_exec(r: i64, g: i64, b: i64, p: Rgb) -> (d: i64)
    requires
        -QUANT_IN_MAX <= r <= QUANT_IN_MAX,
        -QUANT_IN_MAX <= g <= QUANT_IN_MAX,
        -QUANT_IN_MAX <= b <= QUANT_IN_MAX,
    ensures
        d == dist2(r as int, g as int, b as int, p),
{
    let dr = r - (p.r as i64) * SCALE;
    let dg = g - (p.g as i64) * SCALE;
    let db = b - (p.b as i64) * SCALE;
    proof {
        assert(0 <= dr * dr <= 1016711680 * 1016711680) by (nonlinear_arith)
            requires
                -1016711680 <= dr <= 1016711680,
        ;
        assert(0 <= dg * dg <= 1016711680 * 1016711680) by (nonlinear_arith)
            requires
                -1016711680 <= dg <= 1016711680,
        ;
        assert(0 <= db * db <= 1016711680 * 1016711680) by (nonlinear_arith)
            requires
                -1016711680 <= db <= 1016711680,
        ;
    }
    dr * dr + dg * dg + db * db
}

/// Nearest palette color to a (possibly drifted, unclamped) working value,
/// scanning the palette in declaration order and keeping the first minimum.
pub fn find_closest_color(r: i64, g: i64, b: i64) -> (c: Rgb)
    requires
        -QUANT_IN_MAX <= r <= QUANT_IN_MAX,
        -QUANT_IN_MAX <= g <= QUANT_IN_MAX,
        -QUANT_IN_MAX <= b <= QUANT_IN_MAX,
    ensures
        c == palette_at(nearest_idx(r as int, g as int, b as int)),
        is_palette_color(c),
{
    let mut best: usize = 0;
    let mut best_d: i64 = dist2_exec(r, g, b, palette_entry(0));
    let mut i: usize = 1;
    while i < 6
        invariant
            1 <= i <= 6,
            best < i,
            -QUANT_IN_MAX <= r <= QUANT_IN_MAX,
            -QUANT_IN_MAX <= g <= QUANT_IN_MAX,
            -QUANT_IN_MAX <= b <= QUANT_IN_MAX,
            best_d == dist2(r as int, g as int, b as int, palette_at(best as int)),
            nearest_from(r as int, g as int, b as int, i as int, best as int) == nearest_idx(
                r as int,
                g as int,
                b as int,
            ),
        decreases 6 - i,
    {
        let d = dist2_exec(r, g, b, palette_entry(i));
        if d < best_d {
            best = i;
            best_d = d;
        }
        i = i + 1;
    }
    proof {
        lemma_quantizer_in_palette(r as int, g as int, b as int);
    }
    palette_entry(best)
}

} // verus!
