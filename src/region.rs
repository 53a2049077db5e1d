//! Sampling of a line's support region: a grid of rows parallel to the
//! line, centred on it, whose image gradients are projected onto the line's
//! frame, weighted row by row and reduced to signed-split sums.
//! Coordinates are fixed point, in `1 / SUBPIXEL` pixel units; directions
//! are the segment's own vector scaled by its length, so no angle is
//! formed.

use vstd::prelude::*;
use vstd::arithmetic::div_mod::{lemma_fundamental_div_mod, lemma_fundamental_div_mod_converse};
use crate::band::{RowSums, accumulate_row, is_isqrt, isqrt, lemma_isqrt_unique, neg_sum, pos_sum, weights_fit, MAX_WEIGHT};
use crate::keyline::{Segment, SUBPIXEL};
use crate::pyramid::{GrayImage, lemma_cell};

verus! {

/// The integer square root of `x`.
pub open spec fn isqrt_of(x: int) -> int {
    choose|r: int| is_isqrt(r, x)
}

pub proof fn lemma_isqrt_of(r: int, x: int)
    requires
        is_isqrt(r, x),
    ensures
        isqrt_of(x) == r,
{
    lemma_isqrt_unique(isqrt_of(x), r, x);
}

/// Length of a segment in fixed-point units, rounded down.
pub open spec fn seg_len(seg: Segment) -> int {
    let dx = seg.end_x - seg.start_x;
    let dy = seg.end_y - seg.start_y;
    isqrt_of(dx * dx + dy * dy)
}

/// Samples along a line of length `l`: one per pixel, both ends included.
pub open spec fn n_samples(l: int) -> int {
    l / SUBPIXEL as int + 1
}

/// Signed distance, in pixels, of row `r` from the centre row of a region
/// of `rows` rows.
pub open spec fn row_offset(rows: int, r: int) -> int {
    r - rows / 2
}

/// Fixed-point coordinates of sample `t` of the row at offset `d`.
pub open spec fn sample_at(seg: Segment, l: int, d: int, t: int) -> (int, int) {
    let dx = seg.end_x - seg.start_x;
    let dy = seg.end_y - seg.start_y;
    (
        seg.start_x + (t * SUBPIXEL * dx - d * SUBPIXEL * dy) / l,
        seg.start_y + (t * SUBPIXEL * dy + d * SUBPIXEL * dx) / l,
    )
}

/// Pixel `(x, y)` of a `w` by `h` image, or 0 outside it.
pub open spec fn pixel_or_zero(d: Seq<u8>, w: int, h: int, x: int, y: int) -> int {
    if 0 <= x < w && 0 <= y < h {
        d[y * w + x] as int
    } else {
        0
    }
}

/// Central-difference gradient at the pixel holding fixed-point point `p`;
/// zero when that pixel lies outside the image.
pub open spec fn gradient_at(d: Seq<u8>, w: int, h: int, p: (int, int)) -> (int, int) {
    let x = p.0 / SUBPIXEL as int;
    let y = p.1 / SUBPIXEL as int;
    if 0 <= x < w && 0 <= y < h {
        (
            pixel_or_zero(d, w, h, x + 1, y) - pixel_or_zero(d, w, h, x - 1, y),
            pixel_or_zero(d, w, h, x, y + 1) - pixel_or_zero(d, w, h, x, y - 1),
        )
    } else {
        (0, 0)
    }
}

/// Weighted gradient component across the line at sample `t` of row `r`.
pub open spec fn perp_at(img: &GrayImage, seg: Segment, rows: int, gw: int, r: int, t: int) -> int {
    let l = seg_len(seg);
    let g = gradient_at(img.data@, img.width as int, img.height as int, sample_at(seg, l, row_offset(rows, r), t));
    let dx = seg.end_x - seg.start_x;
    let dy = seg.end_y - seg.start_y;
    ((g.1 * dx - g.0 * dy) * gw) / l
}

/// Weighted gradient component along the line at sample `t` of row `r`.
pub open spec fn par_at(img: &GrayImage, seg: Segment, rows: int, gw: int, r: int, t: int) -> int {
    let l = seg_len(seg);
    let g = gradient_at(img.data@, img.width as int, img.height as int, sample_at(seg, l, row_offset(rows, r), t));
    let dx = seg.end_x - seg.start_x;
    let dy = seg.end_y - seg.start_y;
    ((g.0 * dx + g.1 * dy) * gw) / l
}

/// The signed-split sums of row `r` of the support region of `seg`, with
/// global weight `gw` for that row; all zero for a segment of length zero.
pub open spec fn region_row(img: &GrayImage, seg: Segment, rows: int, gw: int, r: int) -> RowSums {
    let l = seg_len(seg);
    if l == 0 {
        RowSums { pos_perp: 0, neg_perp: 0, pos_par: 0, neg_par: 0 }
    } else {
        let n = n_samples(l);
        let perp = Seq::new(n as nat, |t: int| perp_at(img, seg, rows, gw, r, t) as i32);
        let par = Seq::new(n as nat, |t: int| par_at(img, seg, rows, gw, r, t) as i32);
        RowSums {
            pos_perp: pos_sum(perp, n as nat) as u64,
            neg_perp: neg_sum(perp, n as nat) as u64,
            pos_par: pos_sum(par, n as nat) as u64,
            neg_par: neg_sum(par, n as nat) as u64,
        }
    }
}

/// Floor division by a positive divisor.
fn floor_div(n: i128, d: i128) -> (r: i128)
    requires
        0 < d <= 0x1_0000_0000_0000_0000_0000_0000_0000,
        -0x1_0000_0000_0000_0000_0000_0000_0000 <= n <= 0x1_0000_0000_0000_0000_0000_0000_0000,
    ensures
        r == n / d,
{
    if n >= 0 {
        n / d
    } else {
        let a = -n;
        let q = (a + d - 1) / d;
        proof {
            lemma_fundamental_div_mod((a + d - 1) as int, d as int);
            let rem = (a + d - 1) as int % (d as int);
            assert(n == (-q) * d + (d - 1 - rem)) by (nonlinear_arith)
                requires
                    a + d - 1 == d * q + rem,
                    n == -a,
            ;
            lemma_fundamental_div_mod_converse(n as int, d as int, -q, d - 1 - rem);
        }
        -q
    }
}

fn pixel_or_zero_exec(img: &GrayImage, x: i128, y: i128) -> (v: i128)
    requires
        img.wf(),
    ensures
        v == pixel_or_zero(img.data@, img.width as int, img.height as int, x as int, y as int),
        0 <= v <= 255,
{
    if 0 <= x && x < img.width as i128 && 0 <= y && y < img.height as i128 {
        let xu = x as usize;
        let yu = y as usize;
        proof {
            lemma_cell(xu as int, yu as int, img.width as int, img.height as int);
        }
        img.data[yu * img.width + xu] as i128
    } else {
        0
    }
}

/// Largest magnitude of a fixed-point sample coordinate offset.
const SAMPLE_BOUND: i128 = 0x1_0000_0000_0000_0000_0000;

fn gradient_exec(img: &GrayImage, px: i128, py: i128) -> (g: (i128, i128))
    requires
        img.wf(),
        -SAMPLE_BOUND <= px <= SAMPLE_BOUND,
        -SAMPLE_BOUND <= py <= SAMPLE_BOUND,
    ensures
        (g.0 as int, g.1 as int) == gradient_at(img.data@, img.width as int, img.height as int, (px as int, py as int)),
        -255 <= g.0 <= 255,
        -255 <= g.1 <= 255,
{
    let x = floor_div(px, 256);
    let y = floor_div(py, 256);
    if 0 <= x && x < img.width as i128 && 0 <= y && y < img.height as i128 {
        let gx = pixel_or_zero_exec(img, x + 1, y) - pixel_or_zero_exec(img, x - 1, y);
        let gy = pixel_or_zero_exec(img, x, y + 1) - pixel_or_zero_exec(img, x, y - 1);
        (gx, gy)
    } else {
        (0, 0)
    }
}

proof fn lemma_side_le_len(dx: int, dy: int, l: int)
    requires
        is_isqrt(l, dx * dx + dy * dy),
    ensures
        -l <= dx <= l,
        -l <= dy <= l,
{
    assert(-l <= dx <= l) by (nonlinear_arith)
        requires
            dx * dx + dy * dy < (l + 1) * (l + 1),
            l >= 0,
    ;
    assert(-l <= dy <= l) by (nonlinear_arith)
        requires
            dx * dx + dy * dy < (l + 1) * (l + 1),
            l >= 0,
    ;
}

proof fn lemma_quotient_bound(n: int, l: int, k: int)
    requires
        l > 0,
        k >= 0,
        -k * l <= n <= k * l,
    ensures
        -k <= n / l <= k,
{
    lemma_fundamental_div_mod(n, l);
    let q = n / l;
    let r = n % l;
    assert(-k <= q <= k) by (nonlinear_arith)
        requires
            n == l * q + r,
            0 <= r < l,
            -k * l <= n <= k * l,
            l > 0,
    ;
}

/// Largest magnitude of a weighted projected gradient.
const PROJ_BOUND: i64 = 510 * 0xFFFF;

proof fn lemma_projection_bound(gx: int, gy: int, dx: int, dy: int, gw: int, l: int)
    requires
        -255 <= gx <= 255,
        -255 <= gy <= 255,
        -l <= dx <= l,
        -l <= dy <= l,
        0 <= gw <= 0xFFFF,
        l > 0,
    ensures
        -PROJ_BOUND <= ((gy * dx - gx * dy) * gw) / l <= PROJ_BOUND,
        -PROJ_BOUND <= ((gx * dx + gy * dy) * gw) / l <= PROJ_BOUND,
{
    assert(-PROJ_BOUND * l <= (gy * dx - gx * dy) * gw <= PROJ_BOUND * l) by (nonlinear_arith)
        requires
            -255 <= gx <= 255,
            -255 <= gy <= 255,
            -l <= dx <= l,
            -l <= dy <= l,
            0 <= gw <= 0xFFFF,
            l > 0,
    ;
    assert(-PROJ_BOUND * l <= (gx * dx + gy * dy) * gw <= PROJ_BOUND * l) by (nonlinear_arith)
        requires
            -255 <= gx <= 255,
            -255 <= gy <= 255,
            -l <= dx <= l,
            -l <= dy <= l,
            0 <= gw <= 0xFFFF,
            l > 0,
    ;
    lemma_quotient_bound((gy * dx - gx * dy) * gw, l, PROJ_BOUND as int);
    lemma_quotient_bound((gx * dx + gy * dy) * gw, l, PROJ_BOUND as int);
}

fn region_row_exec(img: &GrayImage, seg: Segment, l: i128, rows: usize, gw: u32, r: usize) -> (out: RowSums)
    requires
        img.wf(),
        l == seg_len(seg),
        is_isqrt(l as int, (seg.end_x - seg.start_x) * (seg.end_x - seg.start_x) + (seg.end_y - seg.start_y) * (seg.end_y - seg.start_y)),
        0 < l <= 0x2_0000_0000,
        rows <= 0x8000_0000,
        r < rows,
        gw <= MAX_WEIGHT,
    ensures
        out == region_row(img, seg, rows as int, gw as int, r as int),
{
    let sx = seg.start_x as i128;
    let sy = seg.start_y as i128;
    let dx = seg.end_x as i128 - sx;
    let dy = seg.end_y as i128 - sy;
    proof {
        lemma_side_le_len(dx as int, dy as int, l as int);
    }
    let d = r as i128 - (rows / 2) as i128;
    let n = l / 256 + 1;
    let mut perp: Vec<i32> = Vec::new();
    let mut par: Vec<i32> = Vec::new();
    let mut t: i128 = 0;
    while t < n
        invariant
            img.wf(),
            l == seg_len(seg),
            0 < l <= 0x2_0000_0000,
            -l <= dx <= l,
            -l <= dy <= l,
            dx == seg.end_x - seg.start_x,
            dy == seg.end_y - seg.start_y,
            sx == seg.start_x,
            sy == seg.start_y,
            d == row_offset(rows as int, r as int),
            -0x8000_0000 <= d <= 0x8000_0000,
            gw <= MAX_WEIGHT,
            n == n_samples(l as int),
            0 <= t <= n,
            perp.len() == t,
            par.len() == t,
            forall|k: int| 0 <= k < t ==> #[trigger] perp@[k] == perp_at(img, seg, rows as int, gw as int, r as int, k) as i32,
            forall|k: int| 0 <= k < t ==> #[trigger] par@[k] == par_at(img, seg, rows as int, gw as int, r as int, k) as i32,
        decreases n - t,
    {
        proof {
            lemma_fundamental_div_mod(l as int, 256);
            assert(t * 256 <= l);
            assert(-0x2_0000_0000 * 0x2_0000_0000 <= t * 256 * dx <= 0x2_0000_0000 * 0x2_0000_0000) by (nonlinear_arith)
                requires
                    0 <= t * 256 <= l,
                    l <= 0x2_0000_0000,
                    -l <= dx <= l,
            ;
            assert(-0x2_0000_0000 * 0x2_0000_0000 <= t * 256 * dy <= 0x2_0000_0000 * 0x2_0000_0000) by (nonlinear_arith)
                requires
                    0 <= t * 256 <= l,
                    l <= 0x2_0000_0000,
                    -l <= dy <= l,
            ;
            assert(-0x8000_0000 * 256 * 0x2_0000_0000 <= d * 256 * dy <= 0x8000_0000 * 256 * 0x2_0000_0000) by (nonlinear_arith)
                requires
                    -0x8000_0000 <= d <= 0x8000_0000,
                    -0x2_0000_0000 <= dy <= 0x2_0000_0000,
            ;
            assert(-0x8000_0000 * 256 * 0x2_0000_0000 <= d * 256 * dx <= 0x8000_0000 * 256 * 0x2_0000_0000) by (nonlinear_arith)
                requires
                    -0x8000_0000 <= d <= 0x8000_0000,
                    -0x2_0000_0000 <= dx <= 0x2_0000_0000,
            ;
        }
        let ax = t * 256 * dx - d * 256 * dy;
        let ay = t * 256 * dy + d * 256 * dx;
        proof {
            let k: int = 0x400_0000_0000_0000_0000;
            assert(-k * l <= ax <= k * l) by (nonlinear_arith)
                requires
                    -k <= ax <= k,
                    l >= 1,
                    k >= 0,
            ;
            assert(-k * l <= ay <= k * l) by (nonlinear_arith)
                requires
                    -k <= ay <= k,
                    l >= 1,
                    k >= 0,
            ;
            lemma_quotient_bound(ax as int, l as int, k);
            lemma_quotient_bound(ay as int, l as int, k);
        }
        let px = sx + floor_div(ax, l);
        let py = sy + floor_div(ay, l);
        let g = gradient_exec(img, px, py);
        let w = gw as i128;
        proof {
            assert(-255 * 0x2_0000_0000 <= g.1 * dx <= 255 * 0x2_0000_0000) by (nonlinear_arith)
                requires -255 <= g.1 <= 255, -0x2_0000_0000 <= dx <= 0x2_0000_0000;
            assert(-255 * 0x2_0000_0000 <= g.0 * dy <= 255 * 0x2_0000_0000) by (nonlinear_arith)
                requires -255 <= g.0 <= 255, -0x2_0000_0000 <= dy <= 0x2_0000_0000;
            assert(-255 * 0x2_0000_0000 <= g.0 * dx <= 255 * 0x2_0000_0000) by (nonlinear_arith)
                requires -255 <= g.0 <= 255, -0x2_0000_0000 <= dx <= 0x2_0000_0000;
            assert(-255 * 0x2_0000_0000 <= g.1 * dy <= 255 * 0x2_0000_0000) by (nonlinear_arith)
                requires -255 <= g.1 <= 255, -0x2_0000_0000 <= dy <= 0x2_0000_0000;
            assert(-510 * 0x2_0000_0000 * 0xFFFF <= (g.1 * dx - g.0 * dy) * w <= 510 * 0x2_0000_0000 * 0xFFFF) by (nonlinear_arith)
                requires
                    -255 * 0x2_0000_0000 <= g.1 * dx <= 255 * 0x2_0000_0000,
                    -255 * 0x2_0000_0000 <= g.0 * dy <= 255 * 0x2_0000_0000,
                    0 <= w <= 0xFFFF;
            assert(-510 * 0x2_0000_0000 * 0xFFFF <= (g.0 * dx + g.1 * dy) * w <= 510 * 0x2_0000_0000 * 0xFFFF) by (nonlinear_arith)
                requires
                    -255 * 0x2_0000_0000 <= g.0 * dx <= 255 * 0x2_0000_0000,
                    -255 * 0x2_0000_0000 <= g.1 * dy <= 255 * 0x2_0000_0000,
                    0 <= w <= 0xFFFF;
        }
        let np = (g.1 * dx - g.0 * dy) * w;
        let na = (g.0 * dx + g.1 * dy) * w;
        proof {
            lemma_projection_bound(g.0 as int, g.1 as int, dx as int, dy as int, gw as int, l as int);
        }
        let vp = floor_div(np, l);
        let va = floor_div(na, l);
        proof {
            assert(perp_at(img, seg, rows as int, gw as int, r as int, t as int) == vp);
            assert(par_at(img, seg, rows as int, gw as int, r as int, t as int) == va);
        }
        perp.push(vp as i32);
        par.push(va as i32);
        t = t + 1;
    }
    let out = accumulate_row(&perp, &par);
    proof {
        let nn = n_samples(l as int);
        assert(perp@ =~= Seq::new(nn as nat, |k: int| perp_at(img, seg, rows as int, gw as int, r as int, k) as i32));
        assert(par@ =~= Seq::new(nn as nat, |k: int| par_at(img, seg, rows as int, gw as int, r as int, k) as i32));
    }
    out
}

/// The signed-split sums of the rows of the support region of `seg` in
/// `img`: `m` bands of `w` rows, row `r` lying `r - m * w / 2` pixels to
/// the left of the line (towards its left normal) and weighted by
/// `global[r]`. A segment of length zero gives rows of zeros. The line band
/// descriptor takes `global[r]` proportional to `exp(-d^2 / (2 sg^2))`, in
/// fixed point, with `d` the row's distance from the centre row and
/// `sg = 0.5 * (m * w - 1)`.
pub fn region_rows(img: &GrayImage, seg: Segment, m: usize, w: usize, global: &Vec<u32>) -> (rows: Vec<RowSums>)
    requires
        img.wf(),
        m * w <= 0x8000_0000,
        global.len() == m * w,
        weights_fit(global@),
    ensures
        rows.len() == m * w,
        forall|r: int| 0 <= r < rows.len() ==> #[trigger] rows[r] == region_row(img, seg, (m * w) as int, global[r] as int, r),
{
    let n = m * w;
    let adx: u128 = if seg.end_x >= seg.start_x {
        (seg.end_x - seg.start_x) as u128
    } else {
        (seg.start_x - seg.end_x) as u128
    };
    let ady: u128 = if seg.end_y >= seg.start_y {
        (seg.end_y - seg.start_y) as u128
    } else {
        (seg.start_y - seg.end_y) as u128
    };
    proof {
        assert(adx * adx <= 0x1_0000_0000 * 0x1_0000_0000) by (nonlinear_arith)
            requires adx <= 0x1_0000_0000;
        assert(ady * ady <= 0x1_0000_0000 * 0x1_0000_0000) by (nonlinear_arith)
            requires ady <= 0x1_0000_0000;
    }
    let x = adx * adx + ady * ady;
    let len = isqrt(x);
    let ghost dx = seg.end_x - seg.start_x;
    let ghost dy = seg.end_y - seg.start_y;
    proof {
        assert(adx * adx == dx * dx) by (nonlinear_arith)
            requires adx == dx || adx == -dx;
        assert(ady * ady == dy * dy) by (nonlinear_arith)
            requires ady == dy || ady == -dy;
        lemma_isqrt_of(len as int, dx * dx + dy * dy);
        assert(len <= 0x2_0000_0000) by (nonlinear_arith)
            requires
                len * len <= x,
                x <= 2 * 0x1_0000_0000 * 0x1_0000_0000,
                len >= 0,
        ;
    }
    let l = len as i128;
    let mut out: Vec<RowSums> = Vec::new();
    let mut r: usize = 0;
    while r < n
        invariant
            img.wf(),
            n == m * w,
            n <= 0x8000_0000,
            global.len() == n,
            weights_fit(global@),
            l == seg_len(seg),
            is_isqrt(l as int, dx * dx + dy * dy),
            dx == seg.end_x - seg.start_x,
            dy == seg.end_y - seg.start_y,
            0 <= l <= 0x2_0000_0000,
            r <= n,
            out.len() == r,
            forall|k: int| 0 <= k < r ==> #[trigger] out[k] == region_row(img, seg, n as int, global[k] as int, k),
        decreases n - r,
    {
        let row = if l == 0 {
            RowSums { pos_perp: 0, neg_perp: 0, pos_par: 0, neg_par: 0 }
        } else {
            assert(global@[r as int] <= MAX_WEIGHT);
            region_row_exec(img, seg, l, n, global[r], r)
        };
        out.push(row);
        r = r + 1;
    }
    out
}

} // verus!
