//! Packing a dithered raster into the two-strip, 4-bit-per-pixel panel
//! buffer.
//!
//! The panel is portrait 1200 x 1600 while content is authored landscape,
//! so the transcoder rotates source coordinates 90 degrees clockwise:
//! destination pixel (x, y) reads source pixel (y, src_height - 1 - x),
//! saturating the subtraction at row 0.  The panel is split into two
//! 600-column vertical strips, packed into the two halves of the buffer;
//! within a strip two pixels share a byte, the even pair index in the high
//! nibble, the odd one in the low nibble.  Destinations whose source pixel
//! is out of range are never written and keep byte value 0.

use vstd::arithmetic::div_mod::{
    lemma_div_pos_is_pos,
    lemma_fundamental_div_mod,
    lemma_fundamental_div_mod_converse,
    lemma_mod_division_less_than_divisor,
    lemma_multiply_divide_lt,
};
use vstd::pervasive::VecAdditionalExecFns;
use vstd::prelude::*;
use crate::color::{code_of, get_epd_color, Rgb};
use crate::dither::{rm_index, scanned};
use crate::raster::Raster;

verus! {

/// Panel width in pixels.
pub const TARGET_W: usize = 1200;

/// Panel height in pixels.
pub const TARGET_H: usize = 1600;

/// Width of one of the two vertical strips.
pub const HALF_W: usize = 600;

/// Panel buffer length in bytes: TARGET_W x TARGET_H pixels at two pixels
/// per byte.
pub const EPD_BUF_LEN: usize = 960000;

/// Length of one strip's half of the buffer.
pub const HALF_BUF_LEN: usize = 480000;

/// Panel code of destination pixel (xn, yn): the rotation reads source
/// pixel (yn, h - 1 - xn) (the subtraction saturating at 0); a destination
/// whose source pixel lies outside the raster keeps code 0.
pub open spec fn dest_code(w: int, h: int, s: Seq<Rgb>, xn: int, yn: int) -> int {
    let xo = yn;
    let yo = if h >= 1 && h - 1 >= xn {
        h - 1 - xn
    } else {
        0
    };
    if xo < w && yo < h {
        code_of(s[rm_index(w, xo, yo)]) as int
    } else {
        0
    }
}

/// Byte index of pair u of destination row yn in the given strip: each
/// strip holds 300 bytes per row, strip 1 starts at the buffer's half.
pub open spec fn strip_byte_index(strip: int, yn: int, u: int) -> int {
    strip * (HALF_BUF_LEN as int) + yn * 300 + u
}

/// Value of the byte holding pair u of destination row yn in the given
/// strip, once the row-major destination scan has reached cursor (cx, cy):
/// the pair's even pixel sits in the high nibble, the odd one in the low
/// nibble, each contributing only after the scan has passed it.
pub open spec fn pair_byte(
    w: int,
    h: int,
    s: Seq<Rgb>,
    strip: int,
    yn: int,
    u: int,
    cx: int,
    cy: int,
) -> int {
    let xe = strip * (HALF_W as int) + 2 * u;
    let hi = if scanned(xe, yn, cx, cy) {
        dest_code(w, h, s, xe, yn)
    } else {
        0
    };
    let lo = if scanned(xe + 1, yn, cx, cy) {
        dest_code(w, h, s, xe + 1, yn)
    } else {
        0
    };
    16 * hi + lo
}

/// Final value of byte b of the panel buffer: bytes below HALF_BUF_LEN
/// belong to strip 0 (destination columns 0..600), the rest to strip 1
/// (columns 600..1200); within a strip, destination pixel (x, y) has pair
/// index (local x + 600 y) and sits in byte (pair index / 2) of that
/// strip, in the high nibble when the pair index is even and in the low
/// nibble when it is odd.
pub open spec fn packed_byte(w: int, h: int, s: Seq<Rgb>, b: int) -> int {
    let strip = if b < HALF_BUF_LEN as int {
        0int
    } else {
        1int
    };
    let local = b - strip * (HALF_BUF_LEN as int);
    pair_byte(w, h, s, strip, local / 300, local % 300, 0, TARGET_H as int)
}

proof fn lemma_or_high_nibble(cur: u8, c: u8)
    requires
        cur == 0,
        c <= 6,
    ensures
        (cur | (c << 4)) == c * 16,
{
    assert((cur | (c << 4)) == c * 16) by (bit_vector)
        requires
            cur == 0 && c <= 6,
    ;
}

proof fn lemma_or_low_nibble(cur: u8, c: u8)
    requires
        cur % 16 == 0,
        cur <= 96,
        c <= 6,
    ensures
        (cur | c) == cur + c,
{
    assert((cur | c) == cur + c) by (bit_vector)
        requires
            cur % 16 == 0 && cur <= 96 && c <= 6,
    ;
}

proof fn lemma_dest_code_range(w: int, h: int, s: Seq<Rgb>, xn: int, yn: int)
    ensures
        0 <= dest_code(w, h, s, xn, yn) <= 6,
{
}

/// Pack a raster into the fixed-size panel buffer.  The result always has
/// exactly EPD_BUF_LEN bytes, whatever the source dimensions, and every
/// byte equals the packed_byte model: rotated, split into two strips, two
/// 4-bit codes per byte, unreachable destinations left at 0.
pub fn pixmap_to_epd_bin(src: &Raster) -> (out: Vec<u8>)
    requires
        src.wf(),
    ensures
        out@.len() == EPD_BUF_LEN as int,
        forall|b: int|
            0 <= b < EPD_BUF_LEN as int ==> #[trigger] out@[b] as int == packed_byte(
                src.width as int,
                src.height as int,
                src.pixels@,
                b,
            ),
{
    let w = src.width;
    let h = src.height;
    let ghost wi = w as int;
    let ghost hi = h as int;
    let ghost s = src.pixels@;
    let n = src.pixels.len();

    let mut buffer: Vec<u8> = Vec::new();
    let mut i: usize = 0;
    while i < EPD_BUF_LEN
        invariant
            i <= EPD_BUF_LEN,
            buffer@.len() == i,
            forall|j: int| 0 <= j < i ==> #[trigger] buffer@[j] == 0,
        decreases EPD_BUF_LEN - i,
    {
        buffer.push(0u8);
        i = i + 1;
    }

    let mut yn: usize = 0;
    while yn < TARGET_H
        invariant
            yn <= TARGET_H,
            w == src.width,
            h == src.height,
            wi == w as int,
            hi == h as int,
            s == src.pixels@,
            src.wf(),
            n == src.pixels@.len(),
            buffer@.len() == EPD_BUF_LEN as int,
            forall|st: int, yy: int, u: int|
                0 <= st < 2 && 0 <= yy < TARGET_H as int && 0 <= u < 300
                    ==> #[trigger] buffer@[strip_byte_index(st, yy, u)] as int == pair_byte(
                    wi,
                    hi,
                    s,
                    st,
                    yy,
                    u,
                    0,
                    yn as int,
                ),
        decreases TARGET_H - yn,
    {
        let mut xn: usize = 0;
        while xn < TARGET_W
            invariant
                xn <= TARGET_W,
                yn < TARGET_H,
                w == src.width,
                h == src.height,
                wi == w as int,
                hi == h as int,
                s == src.pixels@,
                src.wf(),
                n == src.pixels@.len(),
                buffer@.len() == EPD_BUF_LEN as int,
                forall|st: int, yy: int, u: int|
                    0 <= st < 2 && 0 <= yy < TARGET_H as int && 0 <= u < 300
                        ==> #[trigger] buffer@[strip_byte_index(st, yy, u)] as int == pair_byte(
                        wi,
                        hi,
                        s,
                        st,
                        yy,
                        u,
                        xn as int,
                        yn as int,
                    ),
            decreases TARGET_W - xn,
        {
            let ghost xni = xn as int;
            let ghost yni = yn as int;
            let ghost prev = buffer@;
            let xo = yn;
            let yo = if h > xn {
                h - 1 - xn
            } else {
                0
            };
            if xo < w && yo < h {
                proof {
                    crate::dither::lemma_rm_range(wi, hi, xo as int, yo as int);
                    assert((yo as int) * wi + (xo as int) < n as int);
                }
                let p = src.pixels[yo * w + xo];
                let color = get_epd_color(p);
                proof {
                    assert(color as int == dest_code(wi, hi, s, xni, yni));
                }
                let (tx, offset) = if xn < HALF_W {
                    (xn, 0usize)
                } else {
                    (xn - HALF_W, HALF_BUF_LEN)
                };
                let ghost sti: int = if xn < HALF_W {
                    0int
                } else {
                    1int
                };
                let pixel_idx = tx + yn * HALF_W;
                let ghost ui = (tx as int) / 2;
                let ghost ri = (tx as int) % 2;
                proof {
                    lemma_fundamental_div_mod(tx as int, 2);
                    lemma_mod_division_less_than_divisor(tx as int, 2);
                    lemma_div_pos_is_pos(tx as int, 2);
                    lemma_multiply_divide_lt(tx as int, 2, 300);
                    assert(0 <= ui < 300);
                    assert(pixel_idx as int == (300 * (yn as int) + ui) * 2 + ri);
                    lemma_fundamental_div_mod_converse(
                        pixel_idx as int,
                        2,
                        300 * (yn as int) + ui,
                        ri,
                    );
                    assert(pixel_idx as int / 2 == 300 * (yn as int) + ui);
                    assert(pixel_idx as int % 2 == ri);
                }
                let byte_pos = offset + pixel_idx / 2;
                proof {
                    assert(byte_pos as int == strip_byte_index(sti, yni, ui));
                    assert(buffer@[strip_byte_index(sti, yni, ui)] as int == pair_byte(
                        wi,
                        hi,
                        s,
                        sti,
                        yni,
                        ui,
                        xni,
                        yni,
                    ));
                    lemma_dest_code_range(wi, hi, s, sti * (HALF_W as int) + 2 * ui, yni);
                    lemma_dest_code_range(wi, hi, s, sti * (HALF_W as int) + 2 * ui + 1, yni);
                }
                if pixel_idx % 2 == 0 {
                    proof {
                        assert(ri == 0);
                        assert(sti * (HALF_W as int) + 2 * ui == xni);
                        assert(!scanned(xni, yni, xni, yni));
                        assert(!scanned(xni + 1, yni, xni, yni));
                        assert(buffer@[byte_pos as int] == 0);
                    }
                    let cur = buffer[byte_pos];
                    proof {
                        lemma_or_high_nibble(cur, color);
                    }
                    buffer.set(byte_pos, cur | (color << 4));
                } else {
                    proof {
                        assert(ri == 1);
                        assert(sti * (HALF_W as int) + 2 * ui == xni - 1);
                        assert(scanned(xni - 1, yni, xni, yni));
                        assert(!scanned(xni, yni, xni, yni));
                        assert(buffer@[byte_pos as int] as int == 16 * dest_code(
                            wi,
                            hi,
                            s,
                            xni - 1,
                            yni,
                        ));
                        lemma_dest_code_range(wi, hi, s, xni - 1, yni);
                    }
                    let cur = buffer[byte_pos];
                    proof {
                        assert(cur % 16 == 0) by {
                            let dc = dest_code(wi, hi, s, xni - 1, yni);
                            assert(cur as int == 16 * dc && 0 <= dc <= 6);
                            assert((16 * dc) % 16 == 0) by (nonlinear_arith);
                        }
                        lemma_or_low_nibble(cur, color);
                    }
                    buffer.set(byte_pos, cur | color);
                }
                proof {
                    assert forall|st: int, yy: int, u: int|
                        0 <= st < 2 && 0 <= yy < TARGET_H as int && 0 <= u < 300
                            implies #[trigger] buffer@[strip_byte_index(st, yy, u)] as int
                            == pair_byte(wi, hi, s, st, yy, u, xni + 1, yni) by {
                        let bidx = strip_byte_index(st, yy, u);
                        assert(0 <= bidx < EPD_BUF_LEN as int);
                        if st == sti && yy == yni && u == ui {
                            assert(buffer@[bidx] as int == pair_byte(
                                wi,
                                hi,
                                s,
                                st,
                                yy,
                                u,
                                xni + 1,
                                yni,
                            ));
                        } else {
                            assert(bidx != byte_pos as int);
                            assert(buffer@[bidx] == prev[bidx]);
                            assert(prev[strip_byte_index(st, yy, u)] as int == pair_byte(
                                wi,
                                hi,
                                s,
                                st,
                                yy,
                                u,
                                xni,
                                yni,
                            ));
                            assert(pair_byte(wi, hi, s, st, yy, u, xni + 1, yni) == pair_byte(
                                wi,
                                hi,
                                s,
                                st,
                                yy,
                                u,
                                xni,
                                yni,
                            ));
                        }
                    }
                }
            } else {
                proof {
                    assert(dest_code(wi, hi, s, xni, yni) == 0);
                    assert forall|st: int, yy: int, u: int|
                        0 <= st < 2 && 0 <= yy < TARGET_H as int && 0 <= u < 300
                            implies #[trigger] buffer@[strip_byte_index(st, yy, u)] as int
                            == pair_byte(wi, hi, s, st, yy, u, xni + 1, yni) by {
                        assert(prev[strip_byte_index(st, yy, u)] as int == pair_byte(
                            wi,
                            hi,
                            s,
                            st,
                            yy,
                            u,
                            xni,
                            yni,
                        ));
                        assert(pair_byte(wi, hi, s, st, yy, u, xni + 1, yni) == pair_byte(
                            wi,
                            hi,
                            s,
                            st,
                            yy,
                            u,
                            xni,
                            yni,
                        ));
                    }
                }
            }
            xn = xn + 1;
        }
        proof {
            assert forall|st: int, yy: int, u: int|
                0 <= st < 2 && 0 <= yy < TARGET_H as int && 0 <= u < 300
                    implies #[trigger] buffer@[strip_byte_index(st, yy, u)] as int == pair_byte(
                    wi,
                    hi,
                    s,
                    st,
                    yy,
                    u,
                    0,
                    yn as int + 1,
                ) by {
                assert(buffer@[strip_byte_index(st, yy, u)] as int == pair_byte(
                    wi,
                    hi,
                    s,
                    st,
                    yy,
                    u,
                    TARGET_W as int,
                    yn as int,
                ));
                assert(pair_byte(wi, hi, s, st, yy, u, TARGET_W as int, yn as int) == pair_byte(
                    wi,
                    hi,
                    s,
                    st,
                    yy,
                    u,
                    0,
                    yn as int + 1,
                ));
            }
        }
        yn = yn + 1;
    }
    proof {
        assert forall|b: int| 0 <= b < EPD_BUF_LEN as int implies #[trigger] buffer@[b] as int
            == packed_byte(wi, hi, s, b) by {
            let strip: int = if b < HALF_BUF_LEN as int {
                0int
            } else {
                1int
            };
            let local = b - strip * (HALF_BUF_LEN as int);
            assert(0 <= local < HALF_BUF_LEN as int);
            lemma_fundamental_div_mod(local, 300);
            lemma_mod_division_less_than_divisor(local, 300);
            lemma_div_pos_is_pos(local, 300);
            lemma_multiply_divide_lt(local, 300, 1600);
            let yy = local / 300;
            let u = local % 300;
            assert(0 <= yy < 1600 && 0 <= u < 300);
            assert(strip_byte_index(strip, yy, u) == b);
            assert(buffer@[strip_byte_index(strip, yy, u)] as int == pair_byte(
                wi,
                hi,
                s,
                strip,
                yy,
                u,
                0,
                TARGET_H as int,
            ));
        }
    }
    buffer
}

} // verus!
