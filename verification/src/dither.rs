//! Floyd-Steinberg error-diffusion dithering against the six-color palette.
//!
//! The engine scans the raster in row-major order.  At each pixel it clamps
//! the accumulated working value to the valid channel range, quantizes the
//! clamped value, writes the quantized color back so later pixels see it,
//! and diffuses the clamped-minus-quantized error to the not-yet-visited
//! neighbors with the Floyd-Steinberg weights 7/16, 3/16, 5/16 and 1/16.
//!
//! Working values are scaled fixed-point integers (channel value times
//! `SCALE`), so diffused error keeps fractional precision across the scan;
//! each 1/16 error share is truncated toward zero at 1/`SCALE` resolution.

use vstd::arithmetic::div_mod::{lemma_div_by_multiple, lemma_div_is_ordered, lemma_div_of0};
use vstd::pervasive::VecAdditionalExecFns;
use vstd::prelude::*;
use crate::color::{
    find_closest_color,
    is_palette_color,
    lemma_quantizer_in_palette,
    nearest_idx,
    palette_at,
    Rgb,
    FX_MAX,
    SCALE,
};
use crate::raster::Raster;

verus! {

/// One cell of the dithering working buffer: a scaled RGB triple, as
/// unbounded integers in the model.
pub struct WorkPix {
    pub r: int,
    pub g: int,
    pub b: int,
}

/// Bound of a single 1/16 error share: one sixteenth of FX_MAX.
pub const ERR_UNIT: i64 = 1044480;

/// A palette color as a working-buffer cell.
pub open spec fn scaled_pix(c: Rgb) -> WorkPix {
    WorkPix {
        r: (c.r as int) * (SCALE as int),
        g: (c.g as int) * (SCALE as int),
        b: (c.b as int) * (SCALE as int),
    }
}

/// The working buffer the scan starts from: every source pixel scaled.
pub open spec fn work_init(s: Seq<Rgb>) -> Seq<WorkPix> {
    Seq::new(s.len(), |i: int| scaled_pix(s[i]))
}

/// Clamp a working channel value to the representable range 0..=FX_MAX.
pub open spec fn clamp_fx_spec(v: int) -> int {
    if v < 0 {
        0
    } else if v > FX_MAX as int {
        FX_MAX as int
    } else {
        v
    }
}

/// One error share: e * wt / 16, truncated toward zero.
pub open spec fn share16(e: int, wt: int) -> int {
    let t = e * wt;
    if t >= 0 {
        t / 16
    } else {
        -((-t) / 16)
    }
}

/// Flat row-major index of column x, row y.
pub open spec fn rm_index(w: int, x: int, y: int) -> int {
    y * w + x
}

/// Add one error share to the cell at flat index i.
pub open spec fn add_err(buf: Seq<WorkPix>, i: int, er: int, eg: int, eb: int, wt: int) -> Seq<
    WorkPix,
> {
    buf.update(
        i,
        WorkPix {
            r: buf[i].r + share16(er, wt),
            g: buf[i].g + share16(eg, wt),
            b: buf[i].b + share16(eb, wt),
        },
    )
}

/// Diffuse the error of pixel (x, y) to its in-bounds unvisited neighbors:
/// right 7/16, lower-left 3/16, below 5/16, lower-right 1/16.
pub open spec fn diffuse_spec(
    buf: Seq<WorkPix>,
    w: int,
    h: int,
    x: int,
    y: int,
    er: int,
    eg: int,
    eb: int,
) -> Seq<WorkPix> {
    let b1 = if x + 1 < w {
        add_err(buf, rm_index(w, x + 1, y), er, eg, eb, 7)
    } else {
        buf
    };
    let b2 = if y + 1 < h && x >= 1 {
        add_err(b1, rm_index(w, x - 1, y + 1), er, eg, eb, 3)
    } else {
        b1
    };
    let b3 = if y + 1 < h {
        add_err(b2, rm_index(w, x, y + 1), er, eg, eb, 5)
    } else {
        b2
    };
    if y + 1 < h && x + 1 < w {
        add_err(b3, rm_index(w, x + 1, y + 1), er, eg, eb, 1)
    } else {
        b3
    }
}

/// Process pixel (x, y): clamp, quantize the clamped value, write the
/// quantized color back, then diffuse the clamped-minus-quantized error.
pub open spec fn dither_step(buf: Seq<WorkPix>, w: int, h: int, x: int, y: int) -> Seq<WorkPix> {
    let i = rm_index(w, x, y);
    let cr = clamp_fx_spec(buf[i].r);
    let cg = clamp_fx_spec(buf[i].g);
    let cb = clamp_fx_spec(buf[i].b);
    let q = palette_at(nearest_idx(cr, cg, cb));
    let buf1 = buf.update(i, scaled_pix(q));
    diffuse_spec(
        buf1,
        w,
        h,
        x,
        y,
        cr - (q.r as int) * (SCALE as int),
        cg - (q.g as int) * (SCALE as int),
        cb - (q.b as int) * (SCALE as int),
    )
}

/// Scan from pixel (x, y) to the end of the raster in row-major order.
pub open spec fn dither_scan(buf: Seq<WorkPix>, w: int, h: int, x: int, y: int) -> Seq<WorkPix>
    decreases h - y, w - x,
{
    if y >= h {
        buf
    } else if x >= w {
        dither_scan(buf, w, h, 0, y + 1)
    } else {
        dither_scan(dither_step(buf, w, h, x, y), w, h, x + 1, y)
    }
}

/// Final conversion of one working channel: clamp, then drop the
/// fractional scale.
pub open spec fn out_chan(v: int) -> u8 {
    (clamp_fx_spec(v) / (SCALE as int)) as u8
}

/// Convert a finished working buffer to output pixels.
pub open spec fn finalize_work(buf: Seq<WorkPix>) -> Seq<Rgb> {
    Seq::new(
        buf.len(),
        |i: int| Rgb { r: out_chan(buf[i].r), g: out_chan(buf[i].g), b: out_chan(buf[i].b) },
    )
}

/// The dithered output raster for a w x h source: the full row-major
/// error-diffusion scan, then the clamp-and-truncate conversion.
pub open spec fn dither_spec(w: int, h: int, s: Seq<Rgb>) -> Seq<Rgb> {
    finalize_work(dither_scan(work_init(s), w, h, 0, 0))
}

proof fn lemma_share16_bound(e: int, wt: int)
    requires
        -(FX_MAX as int) <= e <= FX_MAX as int,
        0 <= wt <= 7,
    ensures
        -(ERR_UNIT as int) * wt <= share16(e, wt) <= (ERR_UNIT as int) * wt,
{
    let t = e * wt;
    assert(-16 * 1044480 * wt <= t <= 16 * 1044480 * wt) by (nonlinear_arith)
        requires
            -16711680 <= e <= 16711680 && 0 <= wt <= 7 && t == e * wt,
    ;
    assert((1044480 * wt) * 16 == 16711680 * wt);
    lemma_div_by_multiple(1044480 * wt, 16);
    lemma_div_of0(16);
    if t >= 0 {
        lemma_div_is_ordered(t, 16711680 * wt, 16);
        lemma_div_is_ordered(0, t, 16);
        assert(t / 16 <= 1044480 * wt);
        assert(t / 16 >= 0);
    } else {
        assert(-16711680 * wt <= t);
        assert(0 <= -t);
        assert(-t <= 16711680 * wt);
        lemma_div_is_ordered(-t, 16711680 * wt, 16);
        lemma_div_is_ordered(0, -t, 16);
        assert((-t) / 16 <= 1044480 * wt);
        assert((-t) / 16 >= 0);
    }
}

/// Has pixel (x, y) already been processed when the scan cursor stands at
/// column cx of row cy?
pub open spec fn scanned(x: int, y: int, cx: int, cy: int) -> bool {
    y < cy || (y == cy && x < cx)
}

/// Sum of the Floyd-Steinberg weights (in sixteenths) of the already
/// processed in-bounds cells that diffuse into (x, y): its left neighbor
/// sends 7, its upper-right 3, its upper 5 and its upper-left 1.
pub open spec fn recv_cap(x: int, y: int, cx: int, cy: int, w: int) -> int {
    (if x >= 1 && scanned(x - 1, y, cx, cy) {
        7int
    } else {
        0int
    }) + (if y >= 1 && x + 1 < w && scanned(x + 1, y - 1, cx, cy) {
        3int
    } else {
        0int
    }) + (if y >= 1 && scanned(x, y - 1, cx, cy) {
        5int
    } else {
        0int
    }) + (if y >= 1 && x >= 1 && scanned(x - 1, y - 1, cx, cy) {
        1int
    } else {
        0int
    })
}

/// Channel-wise deviation bound: a lies within cap error shares of b.
pub open spec fn within_dev(a: WorkPix, b: WorkPix, cap: int) -> bool {
    &&& b.r - (ERR_UNIT as int) * cap <= a.r <= b.r + (ERR_UNIT as int) * cap
    &&& b.g - (ERR_UNIT as int) * cap <= a.g <= b.g + (ERR_UNIT as int) * cap
    &&& b.b - (ERR_UNIT as int) * cap <= a.b <= b.b + (ERR_UNIT as int) * cap
}

/// The cell holds a palette color, scaled.
pub open spec fn is_scaled_palette(p: WorkPix) -> bool {
    exists|c: Rgb| is_palette_color(c) && p == scaled_pix(c)
}

/// Every channel of every starting cell lies in 0..=FX_MAX.
pub open spec fn init_ok(init: Seq<WorkPix>) -> bool {
    forall|j: int|
        0 <= j < init.len() ==> {
            let p = #[trigger] init[j];
            0 <= p.r <= FX_MAX as int && 0 <= p.g <= FX_MAX as int && 0 <= p.b <= FX_MAX as int
        }
}

/// Scan invariant at cursor (cx, cy): processed cells hold scaled palette
/// colors; unprocessed cells deviate from their starting value by at most
/// the error shares their already-processed neighbors may have sent.
pub open spec fn dither_inv(
    view: Seq<WorkPix>,
    init: Seq<WorkPix>,
    w: int,
    h: int,
    cx: int,
    cy: int,
) -> bool {
    &&& view.len() == w * h
    &&& init.len() == w * h
    &&& init_ok(init)
    &&& forall|x: int, y: int|
        0 <= x < w && 0 <= y < h && !scanned(x, y, cx, cy) ==> within_dev(
            #[trigger] view[rm_index(w, x, y)],
            init[rm_index(w, x, y)],
            recv_cap(x, y, cx, cy, w),
        )
    &&& forall|x: int, y: int|
        0 <= x < w && 0 <= y < h && scanned(x, y, cx, cy) ==> is_scaled_palette(
            #[trigger] view[rm_index(w, x, y)],
        )
}

pub proof fn lemma_rm_range(w: int, h: int, x: int, y: int)
    requires
        0 <= x < w,
        0 <= y < h,
    ensures
        0 <= rm_index(w, x, y) < w * h,
{
    assert(0 <= y * w + x < w * h) by (nonlinear_arith)
        requires
            0 <= x < w && 0 <= y < h,
    ;
}

proof fn lemma_rm_inj(w: int, x1: int, y1: int, x2: int, y2: int)
    requires
        0 <= x1 < w,
        0 <= x2 < w,
        0 <= y1,
        0 <= y2,
        rm_index(w, x1, y1) == rm_index(w, x2, y2),
    ensures
        x1 == x2,
        y1 == y2,
{
    assert(x1 == x2 && y1 == y2) by (nonlinear_arith)
        requires
            0 <= x1 < w && 0 <= x2 < w && 0 <= y1 && 0 <= y2 && y1 * w + x1 == y2 * w + x2,
    ;
}

proof fn lemma_step_preserves_inv(v0: Seq<WorkPix>, init: Seq<WorkPix>, w: int, h: int, x: int, y: int)
    requires
        dither_inv(v0, init, w, h, x, y),
        0 <= x < w,
        0 <= y < h,
    ensures
        dither_inv(dither_step(v0, w, h, x, y), init, w, h, x + 1, y),
{
    let i = rm_index(w, x, y);
    lemma_rm_range(w, h, x, y);
    if x + 1 < w {
        lemma_rm_range(w, h, x + 1, y);
    }
    if y + 1 < h && x >= 1 {
        lemma_rm_range(w, h, x - 1, y + 1);
    }
    if y + 1 < h {
        lemma_rm_range(w, h, x, y + 1);
    }
    if y + 1 < h && x + 1 < w {
        lemma_rm_range(w, h, x + 1, y + 1);
    }
    let cr = clamp_fx_spec(v0[i].r);
    let cg = clamp_fx_spec(v0[i].g);
    let cb = clamp_fx_spec(v0[i].b);
    let k = nearest_idx(cr, cg, cb);
    lemma_quantizer_in_palette(cr, cg, cb);
    let q = palette_at(k);
    let er = cr - (q.r as int) * (SCALE as int);
    let eg = cg - (q.g as int) * (SCALE as int);
    let eb = cb - (q.b as int) * (SCALE as int);
    lemma_share16_bound(er, 7);
    lemma_share16_bound(er, 3);
    lemma_share16_bound(er, 5);
    lemma_share16_bound(er, 1);
    lemma_share16_bound(eg, 7);
    lemma_share16_bound(eg, 3);
    lemma_share16_bound(eg, 5);
    lemma_share16_bound(eg, 1);
    lemma_share16_bound(eb, 7);
    lemma_share16_bound(eb, 3);
    lemma_share16_bound(eb, 5);
    lemma_share16_bound(eb, 1);
    let s = dither_step(v0, w, h, x, y);
    assert(s.len() == w * h);
    assert forall|xx: int, yy: int|
        0 <= xx < w && 0 <= yy < h && !scanned(xx, yy, x + 1, y) implies within_dev(
        s[rm_index(w, xx, yy)],
        init[rm_index(w, xx, yy)],
        recv_cap(xx, yy, x + 1, y, w),
    ) by {
        let j = rm_index(w, xx, yy);
        lemma_rm_range(w, h, xx, yy);
        assert(!scanned(xx, yy, x, y));
        assert(within_dev(
            v0[rm_index(w, xx, yy)],
            init[rm_index(w, xx, yy)],
            recv_cap(xx, yy, x, y, w),
        ));
        lemma_rm_inj_ne(w, xx, yy, x, y);
        let is_n1 = yy == y && xx == x + 1;
        let is_n2 = yy == y + 1 && xx == x - 1;
        let is_n3 = yy == y + 1 && xx == x;
        let is_n4 = yy == y + 1 && xx == x + 1;
        if x + 1 < w && !is_n1 {
            lemma_rm_inj_ne(w, xx, yy, x + 1, y);
        }
        if y + 1 < h && x >= 1 && !is_n2 {
            lemma_rm_inj_ne(w, xx, yy, x - 1, y + 1);
        }
        if y + 1 < h && !is_n3 {
            lemma_rm_inj_ne(w, xx, yy, x, y + 1);
        }
        if y + 1 < h && x + 1 < w && !is_n4 {
            lemma_rm_inj_ne(w, xx, yy, x + 1, y + 1);
        }
        if is_n1 {
            assert(s[j].r == v0[j].r + share16(er, 7));
            assert(s[j].g == v0[j].g + share16(eg, 7));
            assert(s[j].b == v0[j].b + share16(eb, 7));
            assert(recv_cap(xx, yy, x + 1, y, w) == recv_cap(xx, yy, x, y, w) + 7);
        } else if is_n2 {
            assert(s[j].r == v0[j].r + share16(er, 3));
            assert(s[j].g == v0[j].g + share16(eg, 3));
            assert(s[j].b == v0[j].b + share16(eb, 3));
            assert(recv_cap(xx, yy, x + 1, y, w) == recv_cap(xx, yy, x, y, w) + 3);
        } else if is_n3 {
            assert(s[j].r == v0[j].r + share16(er, 5));
            assert(s[j].g == v0[j].g + share16(eg, 5));
            assert(s[j].b == v0[j].b + share16(eb, 5));
            assert(recv_cap(xx, yy, x + 1, y, w) == recv_cap(xx, yy, x, y, w) + 5);
        } else if is_n4 {
            assert(s[j].r == v0[j].r + share16(er, 1));
            assert(s[j].g == v0[j].g + share16(eg, 1));
            assert(s[j].b == v0[j].b + share16(eb, 1));
            assert(recv_cap(xx, yy, x + 1, y, w) == recv_cap(xx, yy, x, y, w) + 1);
        } else {
            assert(s[j] == v0[j]);
            assert(recv_cap(xx, yy, x + 1, y, w) >= recv_cap(xx, yy, x, y, w));
        }
    }
    assert forall|xx: int, yy: int|
        0 <= xx < w && 0 <= yy < h && scanned(xx, yy, x + 1, y) implies is_scaled_palette(
        #[trigger] s[rm_index(w, xx, yy)],
    ) by {
        let j = rm_index(w, xx, yy);
        lemma_rm_range(w, h, xx, yy);
        if xx == x && yy == y {
            if x + 1 < w {
                lemma_rm_inj_ne(w, xx, yy, x + 1, y);
            }
            if y + 1 < h && x >= 1 {
                lemma_rm_inj_ne(w, xx, yy, x - 1, y + 1);
            }
            if y + 1 < h {
                lemma_rm_inj_ne(w, xx, yy, x, y + 1);
            }
            if y + 1 < h && x + 1 < w {
                lemma_rm_inj_ne(w, xx, yy, x + 1, y + 1);
            }
            assert(s[j] == scaled_pix(q));
            assert(is_palette_color(q));
        } else {
            lemma_untouched(v0, w, h, x, y, xx, yy);
            assert(s[j] == v0[j]);
            assert(scanned(xx, yy, x, y));
            assert(is_scaled_palette(v0[rm_index(w, xx, yy)]));
        }
    }
}

/// A cell other than (x, y) and its four diffusion targets is untouched by
/// the step at (x, y).
proof fn lemma_untouched(v0: Seq<WorkPix>, w: int, h: int, x: int, y: int, xx: int, yy: int)
    requires
        v0.len() == w * h,
        0 <= x < w,
        0 <= y < h,
        0 <= xx < w,
        0 <= yy < h,
        !(xx == x && yy == y),
        !(yy == y && xx == x + 1),
        !(yy == y + 1 && xx == x - 1),
        !(yy == y + 1 && xx == x),
        !(yy == y + 1 && xx == x + 1),
    ensures
        dither_step(v0, w, h, x, y)[rm_index(w, xx, yy)] == v0[rm_index(w, xx, yy)],
{
    let j = rm_index(w, xx, yy);
    lemma_rm_range(w, h, xx, yy);
    lemma_rm_range(w, h, x, y);
    lemma_rm_inj_ne(w, xx, yy, x, y);
    if x + 1 < w {
        lemma_rm_range(w, h, x + 1, y);
        lemma_rm_inj_ne(w, xx, yy, x + 1, y);
    }
    if y + 1 < h && x >= 1 {
        lemma_rm_range(w, h, x - 1, y + 1);
        lemma_rm_inj_ne(w, xx, yy, x - 1, y + 1);
    }
    if y + 1 < h {
        lemma_rm_range(w, h, x, y + 1);
        lemma_rm_inj_ne(w, xx, yy, x, y + 1);
    }
    if y + 1 < h && x + 1 < w {
        lemma_rm_range(w, h, x + 1, y + 1);
        lemma_rm_inj_ne(w, xx, yy, x + 1, y + 1);
    }
}

/// Distinct in-bounds coordinates have distinct row-major indices.
proof fn lemma_rm_inj_ne(w: int, x1: int, y1: int, x2: int, y2: int)
    requires
        0 <= x1 < w,
        0 <= x2 < w,
        0 <= y1,
        0 <= y2,
        !(x1 == x2 && y1 == y2),
    ensures
        rm_index(w, x1, y1) != rm_index(w, x2, y2),
{
    if rm_index(w, x1, y1) == rm_index(w, x2, y2) {
        lemma_rm_inj(w, x1, y1, x2, y2);
    }
}

/// Moving the cursor from just past the end of row y to the start of row
/// y + 1 changes nothing about which cells are scanned.
proof fn lemma_inv_row_wrap(view: Seq<WorkPix>, init: Seq<WorkPix>, w: int, h: int, y: int)
    requires
        dither_inv(view, init, w, h, w, y),
    ensures
        dither_inv(view, init, w, h, 0, y + 1),
{
    assert forall|x: int, yy: int|
        0 <= x < w && 0 <= yy < h && !scanned(x, yy, 0, y + 1) implies within_dev(
        #[trigger] view[rm_index(w, x, yy)],
        init[rm_index(w, x, yy)],
        recv_cap(x, yy, 0, y + 1, w),
    ) by {
        assert(!scanned(x, yy, w, y));
        assert(recv_cap(x, yy, 0, y + 1, w) == recv_cap(x, yy, w, y, w));
        assert(within_dev(view[rm_index(w, x, yy)], init[rm_index(w, x, yy)], recv_cap(x, yy, w, y, w)));
    }
    assert forall|x: int, yy: int|
        0 <= x < w && 0 <= yy < h && scanned(x, yy, 0, y + 1) implies is_scaled_palette(
        #[trigger] view[rm_index(w, x, yy)],
    ) by {
        assert(scanned(x, yy, w, y));
        assert(is_scaled_palette(view[rm_index(w, x, yy)]));
    }
}

/// One working-buffer cell in executable form: scaled i64 channel values.
#[derive(Clone, Copy)]
struct FxPix {
    r: i64,
    g: i64,
    b: i64,
}

spec fn fx(p: FxPix) -> WorkPix {
    WorkPix { r: p.r as int, g: p.g as int, b: p.b as int }
}

spec fn fx_view(s: Seq<FxPix>) -> Seq<WorkPix> {
    Seq::new(s.len(), |i: int| fx(s[i]))
}

proof fn lemma_fx_update(s: Seq<FxPix>, i: int, p: FxPix)
    requires
        0 <= i < s.len(),
    ensures
        fx_view(s.update(i, p)) == fx_view(s).update(i, fx(p)),
{
    assert(fx_view(s.update(i, p)) =~= fx_view(s).update(i, fx(p)));
}

proof fn lemma_rm_row_step(w: int, x: int, y: int)
    ensures
        rm_index(w, x, y + 1) == rm_index(w, x, y) + w,
{
    assert((y + 1) * w == y * w + w) by (nonlinear_arith);
}

fn clamp_fx(v: i64) -> (c: i64)
    ensures
        c == clamp_fx_spec(v as int),
        0 <= c <= FX_MAX,
{
    if v < 0 {
        0
    } else if v > FX_MAX {
        FX_MAX
    } else {
        v
    }
}

fn err_share(e: i64, wt: i64) -> (s: i64)
    requires
        -FX_MAX <= e <= FX_MAX,
        1 <= wt <= 7,
    ensures
        s == share16(e as int, wt as int),
        -(ERR_UNIT as int) * wt <= s <= (ERR_UNIT as int) * wt,
{
    proof {
        assert(-116981760 <= e * wt <= 116981760) by (nonlinear_arith)
            requires
                -16711680 <= e <= 16711680 && 1 <= wt <= 7,
        ;
        lemma_share16_bound(e as int, wt as int);
    }
    let t = e * wt;
    if t >= 0 {
        ((t as u64) / 16) as i64
    } else {
        -((((-t) as u64) / 16) as i64)
    }
}

/// Add a weighted error share (wt sixteenths of each channel error) to one
/// working-buffer cell.
fn distribute_error(p: &mut FxPix, er: i64, eg: i64, eb: i64, wt: i64)
    requires
        -FX_MAX <= er <= FX_MAX,
        -FX_MAX <= eg <= FX_MAX,
        -FX_MAX <= eb <= FX_MAX,
        1 <= wt <= 7,
        -2 * (FX_MAX as int) <= old(p).r <= 2 * (FX_MAX as int),
        -2 * (FX_MAX as int) <= old(p).g <= 2 * (FX_MAX as int),
        -2 * (FX_MAX as int) <= old(p).b <= 2 * (FX_MAX as int),
    ensures
        final(p).r == old(p).r + share16(er as int, wt as int),
        final(p).g == old(p).g + share16(eg as int, wt as int),
        final(p).b == old(p).b + share16(eb as int, wt as int),
{
    p.r = p.r + err_share(er, wt);
    p.g = p.g + err_share(eg, wt);
    p.b = p.b + err_share(eb, wt);
}

/// Dither a raster to the six-color palette with Floyd-Steinberg error
/// diffusion.  The output has the source's dimensions, equals the
/// row-major error-diffusion model exactly, and every output pixel is one
/// of the six palette colors.
pub fn apply_floyd_steinberg(src: &Raster) -> (out: Raster)
    requires
        src.wf(),
    ensures
        out.wf(),
        out.width == src.width,
        out.height == src.height,
        out.pixels@ == dither_spec(src.width as int, src.height as int, src.pixels@),
        forall|i: int| 0 <= i < out.pixels@.len() ==> is_palette_color(#[trigger] out.pixels@[i]),
{
    let w = src.width;
    let h = src.height;
    let n = src.pixels.len();
    let ghost wi = w as int;
    let ghost hi = h as int;
    let ghost init = work_init(src.pixels@);

    let mut buf: Vec<FxPix> = Vec::new();
    let mut i: usize = 0;
    while i < n
        invariant
            i <= n,
            n == src.pixels@.len(),
            buf@.len() == i,
            forall|j: int| 0 <= j < i ==> fx(#[trigger] buf@[j]) == work_init(src.pixels@)[j],
        decreases n - i,
    {
        let p = src.pixels[i];
        buf.push(
            FxPix { r: (p.r as i64) * SCALE, g: (p.g as i64) * SCALE, b: (p.b as i64) * SCALE },
        );
        i = i + 1;
    }
    proof {
        assert(fx_view(buf@) =~= init);
        assert forall|x: int, y: int|
            0 <= x < wi && 0 <= y < hi && !scanned(x, y, 0, 0) implies within_dev(
            #[trigger] fx_view(buf@)[rm_index(wi, x, y)],
            init[rm_index(wi, x, y)],
            recv_cap(x, y, 0, 0, wi),
        ) by {
            lemma_rm_range(wi, hi, x, y);
            assert(recv_cap(x, y, 0, 0, wi) >= 0);
        }
        assert(dither_inv(fx_view(buf@), init, wi, hi, 0, 0));
    }

    let mut y: usize = 0;
    while y < h
        invariant
            y <= h,
            w == src.width,
            h == src.height,
            wi == w as int,
            hi == h as int,
            src.wf(),
            n == src.pixels@.len(),
            n as int == wi * hi,
            buf@.len() == n,
            init == work_init(src.pixels@),
            dither_inv(fx_view(buf@), init, wi, hi, 0, y as int),
            dither_scan(fx_view(buf@), wi, hi, 0, y as int) == dither_scan(init, wi, hi, 0, 0),
        decreases h - y,
    {
        let mut x: usize = 0;
        while x < w
            invariant
                x <= w,
                y < h,
                w == src.width,
                h == src.height,
                wi == w as int,
                hi == h as int,
                src.wf(),
                n == src.pixels@.len(),
                n as int == wi * hi,
                buf@.len() == n,
                init == work_init(src.pixels@),
                dither_inv(fx_view(buf@), init, wi, hi, x as int, y as int),
                dither_scan(fx_view(buf@), wi, hi, x as int, y as int) == dither_scan(
                    init,
                    wi,
                    hi,
                    0,
                    0,
                ),
            decreases w - x,
        {
            let ghost xi = x as int;
            let ghost yi = y as int;
            let ghost v0 = fx_view(buf@);
            proof {
                lemma_rm_range(wi, hi, xi, yi);
                lemma_rm_row_step(wi, xi, yi);
                if xi + 1 < wi {
                    lemma_rm_range(wi, hi, xi + 1, yi);
                }
                if yi + 1 < hi && xi >= 1 {
                    lemma_rm_range(wi, hi, xi - 1, yi + 1);
                }
                if yi + 1 < hi {
                    lemma_rm_range(wi, hi, xi, yi + 1);
                }
                if yi + 1 < hi && xi + 1 < wi {
                    lemma_rm_range(wi, hi, xi + 1, yi + 1);
                }
            }
            let idx = y * w + x;
            let c = buf[idx];
            proof {
                assert(fx(c) == v0[rm_index(wi, xi, yi)]);
                assert(within_dev(
                    v0[rm_index(wi, xi, yi)],
                    init[rm_index(wi, xi, yi)],
                    recv_cap(xi, yi, xi, yi, wi),
                ));
                assert(recv_cap(xi, yi, xi, yi, wi) <= 16);
                assert(0 <= init[rm_index(wi, xi, yi)].r <= FX_MAX as int);
            }
            let cr = clamp_fx(c.r);
            let cg = clamp_fx(c.g);
            let cb = clamp_fx(c.b);
            let q = find_closest_color(cr, cg, cb);
            let qr = (q.r as i64) * SCALE;
            let qg = (q.g as i64) * SCALE;
            let qb = (q.b as i64) * SCALE;
            let np = FxPix { r: qr, g: qg, b: qb };
            let ghost b0 = buf@;
            buf.set(idx, np);
            let ghost mut vcur = v0.update(rm_index(wi, xi, yi), scaled_pix(q));
            proof {
                lemma_fx_update(b0, idx as int, np);
                assert(fx(np) == scaled_pix(q));
                assert(fx_view(buf@) == vcur);
            }
            let er = cr - qr;
            let eg = cg - qg;
            let eb = cb - qb;
            if x + 1 < w {
                let nidx = idx + 1;
                let ghost ni = rm_index(wi, xi + 1, yi);
                let mut pn = buf[nidx];
                proof {
                    assert(fx(pn) == vcur[ni]);
                    assert(vcur[ni] == v0[ni]);
                    assert(within_dev(
                        v0[rm_index(wi, xi + 1, yi)],
                        init[rm_index(wi, xi + 1, yi)],
                        recv_cap(xi + 1, yi, xi, yi, wi),
                    ));
                    assert(recv_cap(xi + 1, yi, xi, yi, wi) <= 16);
                    assert(0 <= init[rm_index(wi, xi + 1, yi)].r <= FX_MAX as int);
                }
                distribute_error(&mut pn, er, eg, eb, 7);
                let ghost b1 = buf@;
                buf.set(nidx, pn);
                proof {
                    lemma_fx_update(b1, nidx as int, pn);
                    vcur = add_err(vcur, ni, er as int, eg as int, eb as int, 7);
                    assert(fx_view(buf@) == vcur);
                }
            }
            if y + 1 < h {
                if x > 0 {
                    let nidx = idx + w - 1;
                    let ghost ni = rm_index(wi, xi - 1, yi + 1);
                    let mut pn = buf[nidx];
                    proof {
                        assert(fx(pn) == vcur[ni]);
                        assert(vcur[ni] == v0[ni]);
                        assert(within_dev(
                            v0[rm_index(wi, xi - 1, yi + 1)],
                            init[rm_index(wi, xi - 1, yi + 1)],
                            recv_cap(xi - 1, yi + 1, xi, yi, wi),
                        ));
                        assert(recv_cap(xi - 1, yi + 1, xi, yi, wi) <= 16);
                        assert(0 <= init[rm_index(wi, xi - 1, yi + 1)].r <= FX_MAX as int);
                    }
                    distribute_error(&mut pn, er, eg, eb, 3);
                    let ghost b2 = buf@;
                    buf.set(nidx, pn);
                    proof {
                        lemma_fx_update(b2, nidx as int, pn);
                        vcur = add_err(vcur, ni, er as int, eg as int, eb as int, 3);
                        assert(fx_view(buf@) == vcur);
                    }
                }
                {
                    let nidx = idx + w;
                    let ghost ni = rm_index(wi, xi, yi + 1);
                    let mut pn = buf[nidx];
                    proof {
                        assert(fx(pn) == vcur[ni]);
                        assert(vcur[ni] == v0[ni]);
                        assert(within_dev(
                            v0[rm_index(wi, xi, yi + 1)],
                            init[rm_index(wi, xi, yi + 1)],
                            recv_cap(xi, yi + 1, xi, yi, wi),
                        ));
                        assert(recv_cap(xi, yi + 1, xi, yi, wi) <= 16);
                        assert(0 <= init[rm_index(wi, xi, yi + 1)].r <= FX_MAX as int);
                    }
                    distribute_error(&mut pn, er, eg, eb, 5);
                    let ghost b3 = buf@;
                    buf.set(nidx, pn);
                    proof {
                        lemma_fx_update(b3, nidx as int, pn);
                        vcur = add_err(vcur, ni, er as int, eg as int, eb as int, 5);
                        assert(fx_view(buf@) == vcur);
                    }
                }
                if x + 1 < w {
                    let nidx = idx + w + 1;
                    let ghost ni = rm_index(wi, xi + 1, yi + 1);
                    let mut pn = buf[nidx];
                    proof {
                        assert(fx(pn) == vcur[ni]);
                        assert(vcur[ni] == v0[ni]);
                        assert(within_dev(
                            v0[rm_index(wi, xi + 1, yi + 1)],
                            init[rm_index(wi, xi + 1, yi + 1)],
                            recv_cap(xi + 1, yi + 1, xi, yi, wi),
                        ));
                        assert(recv_cap(xi + 1, yi + 1, xi, yi, wi) <= 16);
                        assert(0 <= init[rm_index(wi, xi + 1, yi + 1)].r <= FX_MAX as int);
                    }
                    distribute_error(&mut pn, er, eg, eb, 1);
                    let ghost b4 = buf@;
                    buf.set(nidx, pn);
                    proof {
                        lemma_fx_update(b4, nidx as int, pn);
                        vcur = add_err(vcur, ni, er as int, eg as int, eb as int, 1);
                        assert(fx_view(buf@) == vcur);
                    }
                }
            }
            proof {
                assert(fx_view(buf@) == dither_step(v0, wi, hi, xi, yi));
                lemma_step_preserves_inv(v0, init, wi, hi, xi, yi);
                assert(dither_scan(v0, wi, hi, xi, yi) == dither_scan(
                    dither_step(v0, wi, hi, xi, yi),
                    wi,
                    hi,
                    xi + 1,
                    yi,
                ));
            }
            x = x + 1;
        }
        proof {
            lemma_inv_row_wrap(fx_view(buf@), init, wi, hi, y as int);
            assert(dither_scan(fx_view(buf@), wi, hi, wi, y as int) == dither_scan(
                fx_view(buf@),
                wi,
                hi,
                0,
                y as int + 1,
            ));
        }
        y = y + 1;
    }

    let mut outp: Vec<Rgb> = Vec::new();
    let mut y2: usize = 0;
    proof {
        assert(fx_view(buf@) == dither_scan(init, wi, hi, 0, 0));
    }
    while y2 < h
        invariant
            y2 <= h,
            w == src.width,
            h == src.height,
            wi == w as int,
            hi == h as int,
            n == src.pixels@.len(),
            n as int == wi * hi,
            buf@.len() == n,
            init == work_init(src.pixels@),
            fx_view(buf@) == dither_scan(init, wi, hi, 0, 0),
            dither_inv(fx_view(buf@), init, wi, hi, 0, hi),
            outp@.len() == (y2 as int) * wi,
            forall|j: int|
                0 <= j < outp@.len() ==> #[trigger] outp@[j] == finalize_work(fx_view(buf@))[j],
            forall|j: int| 0 <= j < outp@.len() ==> is_palette_color(#[trigger] outp@[j]),
        decreases h - y2,
    {
        let mut x2: usize = 0;
        while x2 < w
            invariant
                x2 <= w,
                y2 < h,
                w == src.width,
                h == src.height,
                wi == w as int,
                hi == h as int,
                n == src.pixels@.len(),
                n as int == wi * hi,
                buf@.len() == n,
                init == work_init(src.pixels@),
                fx_view(buf@) == dither_scan(init, wi, hi, 0, 0),
                dither_inv(fx_view(buf@), init, wi, hi, 0, hi),
                outp@.len() == (y2 as int) * wi + x2 as int,
                forall|j: int|
                    0 <= j < outp@.len() ==> #[trigger] outp@[j] == finalize_work(fx_view(buf@))[j],
                forall|j: int| 0 <= j < outp@.len() ==> is_palette_color(#[trigger] outp@[j]),
            decreases w - x2,
        {
            proof {
                lemma_rm_range(wi, hi, x2 as int, y2 as int);
            }
            let idx = y2 * w + x2;
            let p = buf[idx];
            proof {
                assert(scanned(x2 as int, y2 as int, 0, hi));
                assert(is_scaled_palette(fx_view(buf@)[rm_index(wi, x2 as int, y2 as int)]));
                assert(fx(p) == fx_view(buf@)[rm_index(wi, x2 as int, y2 as int)]);
            }
            let c0 = clamp_fx(p.r);
            let c1 = clamp_fx(p.g);
            let c2 = clamp_fx(p.b);
            proof {
                lemma_div_is_ordered(0, c0 as int, 65536);
                lemma_div_is_ordered(c0 as int, 16711680, 65536);
                lemma_div_is_ordered(0, c1 as int, 65536);
                lemma_div_is_ordered(c1 as int, 16711680, 65536);
                lemma_div_is_ordered(0, c2 as int, 65536);
                lemma_div_is_ordered(c2 as int, 16711680, 65536);
                lemma_div_by_multiple(255, 65536);
                lemma_div_of0(65536);
            }
            let r8 = ((c0 as u64) / 65536) as u8;
            let g8 = ((c1 as u64) / 65536) as u8;
            let b8 = ((c2 as u64) / 65536) as u8;
            let px = Rgb { r: r8, g: g8, b: b8 };
            proof {
                assert(px == finalize_work(fx_view(buf@))[rm_index(wi, x2 as int, y2 as int)]);
                let cell = fx_view(buf@)[rm_index(wi, x2 as int, y2 as int)];
                let wit = choose|cc: Rgb| is_palette_color(cc) && cell == scaled_pix(cc);
                lemma_div_by_multiple(wit.r as int, 65536);
                lemma_div_by_multiple(wit.g as int, 65536);
                lemma_div_by_multiple(wit.b as int, 65536);
                assert(px == wit);
                assert(is_palette_color(px));
                assert(outp@.len() == rm_index(wi, x2 as int, y2 as int));
            }
            outp.push(px);
            x2 = x2 + 1;
        }
        proof {
            lemma_rm_row_step(wi, 0, y2 as int);
            assert((y2 as int) * wi + wi == (y2 as int + 1) * wi);
        }
        y2 = y2 + 1;
    }
    proof {
        assert(outp@.len() == hi * wi);
        assert(hi * wi == wi * hi) by (nonlinear_arith);
        assert(outp@ =~= finalize_work(fx_view(buf@)));
        assert(outp@ == dither_spec(wi, hi, src.pixels@));
    }
    Raster { width: w, height: h, pixels: outp }
}

proof fn lemma_step_uniform_fixed(buf: Seq<WorkPix>, w: int, h: int, x: int, y: int, c: Rgb)
    requires
        is_palette_color(c),
        buf.len() == w * h,
        0 <= x < w,
        0 <= y < h,
        forall|j: int| 0 <= j < buf.len() ==> #[trigger] buf[j] == scaled_pix(c),
    ensures
        dither_step(buf, w, h, x, y) == buf,
{
    lemma_rm_range(w, h, x, y);
    if x + 1 < w {
        lemma_rm_range(w, h, x + 1, y);
    }
    if y + 1 < h && x >= 1 {
        lemma_rm_range(w, h, x - 1, y + 1);
    }
    if y + 1 < h {
        lemma_rm_range(w, h, x, y + 1);
    }
    if y + 1 < h && x + 1 < w {
        lemma_rm_range(w, h, x + 1, y + 1);
    }
    let i = rm_index(w, x, y);
    let cr = clamp_fx_spec(buf[i].r);
    let cg = clamp_fx_spec(buf[i].g);
    let cb = clamp_fx_spec(buf[i].b);
    assert(cr == (c.r as int) * (SCALE as int));
    assert(cg == (c.g as int) * (SCALE as int));
    assert(cb == (c.b as int) * (SCALE as int));
    crate::color::lemma_quantizer_fixed_point(c);
    let q = palette_at(nearest_idx(cr, cg, cb));
    assert(q == c);
    let buf1 = buf.update(i, scaled_pix(q));
    assert(buf1 =~= buf);
    assert(share16(0, 7) == 0 && share16(0, 5) == 0 && share16(0, 3) == 0 && share16(0, 1) == 0)
        by {
        lemma_div_of0(16);
    }
    if x + 1 < w {
        assert(add_err(buf, rm_index(w, x + 1, y), 0, 0, 0, 7) =~= buf);
    }
    if y + 1 < h && x >= 1 {
        assert(add_err(buf, rm_index(w, x - 1, y + 1), 0, 0, 0, 3) =~= buf);
    }
    if y + 1 < h {
        assert(add_err(buf, rm_index(w, x, y + 1), 0, 0, 0, 5) =~= buf);
    }
    if y + 1 < h && x + 1 < w {
        assert(add_err(buf, rm_index(w, x + 1, y + 1), 0, 0, 0, 1) =~= buf);
    }
    assert(dither_step(buf, w, h, x, y) == buf);
}

proof fn lemma_scan_uniform_fixed(buf: Seq<WorkPix>, w: int, h: int, x: int, y: int, c: Rgb)
    requires
        is_palette_color(c),
        buf.len() == w * h,
        0 <= x,
        0 <= y,
        forall|j: int| 0 <= j < buf.len() ==> #[trigger] buf[j] == scaled_pix(c),
    ensures
        dither_scan(buf, w, h, x, y) == buf,
    decreases h - y, w - x,
{
    if y >= h {
    } else if x >= w {
        lemma_scan_uniform_fixed(buf, w, h, 0, y + 1, c);
    } else {
        lemma_step_uniform_fixed(buf, w, h, x, y, c);
        lemma_scan_uniform_fixed(buf, w, h, x + 1, y, c);
    }
}

/// Law: error diffusion conserves nothing on an input it cannot improve.
/// A raster whose pixels all hold one exact palette color quantizes to
/// itself at every pixel, every diffused error share is zero, and the
/// dithered output is identical to the input.
pub proof fn lemma_dither_uniform_palette(w: int, h: int, s: Seq<Rgb>, c: Rgb)
    requires
        is_palette_color(c),
        s.len() == w * h,
        w >= 0,
        h >= 0,
        forall|j: int| 0 <= j < s.len() ==> #[trigger] s[j] == c,
    ensures
        dither_spec(w, h, s) == s,
{
    let init = work_init(s);
    assert forall|j: int| 0 <= j < init.len() implies #[trigger] init[j] == scaled_pix(c) by {
        assert(s[j] == c);
    }
    lemma_scan_uniform_fixed(init, w, h, 0, 0, c);
    let fin = finalize_work(init);
    assert forall|j: int| 0 <= j < fin.len() implies #[trigger] fin[j] == s[j] by {
        assert(init[j] == scaled_pix(c));
        lemma_div_by_multiple(c.r as int, 65536);
        lemma_div_by_multiple(c.g as int, 65536);
        lemma_div_by_multiple(c.b as int, 65536);
        assert(out_chan(init[j].r) == c.r);
        assert(out_chan(init[j].g) == c.g);
        assert(out_chan(init[j].b) == c.b);
    }
    assert(dither_spec(w, h, s) =~= s);
}

} // verus!
