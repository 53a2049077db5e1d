//! Grey-level images and the Gaussian pyramid of octaves built from them.

use vstd::prelude::*;
use vstd::arithmetic::div_mod::{lemma_div_denominator, lemma_fundamental_div_mod, lemma_div_pos_is_pos};
use vstd::arithmetic::mul::lemma_mul_strictly_positive;
use crate::matcher::DescriptorError;

verus! {

/// A grey-level image, row by row: pixel `(x, y)` is `data[y * width + x]`.
#[derive(Debug)]
pub struct GrayImage {
    pub width: usize,
    pub height: usize,
    pub data: Vec<u8>,
}

impl GrayImage {
    /// The pixel buffer holds exactly `width * height` samples.
    pub open spec fn wf(&self) -> bool {
        self.data.len() == self.width * self.height
    }

    /// An image from its dimensions and pixels; refused when the number of
    /// pixels does not match.
    pub fn new(width: usize, height: usize, data: Vec<u8>) -> (r: Result<GrayImage, DescriptorError>)
        ensures
            data.len() == width * height ==> (r matches Ok(img) && img.width == width && img.height == height
                && img.data@ == data@),
            data.len() != width * height ==> r == Err::<GrayImage, DescriptorError>(DescriptorError::InvalidInput),
    {
        if width > 0 && height > usize::MAX / width {
            proof {
                lemma_fundamental_div_mod(usize::MAX as int, width as int);
                assert(width * height > usize::MAX) by (nonlinear_arith)
                    requires
                        height > usize::MAX / width,
                        width > 0,
                        usize::MAX == width * (usize::MAX / width) + usize::MAX % width,
                        usize::MAX % width < width,
                ;
            }
            return Err(DescriptorError::InvalidInput);
        }
        proof {
            if width > 0 {
                lemma_fundamental_div_mod(usize::MAX as int, width as int);
                assert(width * height <= usize::MAX) by (nonlinear_arith)
                    requires
                        height <= usize::MAX / width,
                        width > 0,
                        usize::MAX == width * (usize::MAX / width) + usize::MAX % width,
                        usize::MAX % width >= 0,
                ;
            }
        }
        if data.len() != width * height {
            return Err(DescriptorError::InvalidInput);
        }
        Ok(GrayImage { width, height, data })
    }

    /// True when the image has no pixel.
    pub fn is_empty(&self) -> (r: bool)
        ensures
            r == (self.width == 0 || self.height == 0),
    {
        self.width == 0 || self.height == 0
    }
}

/// `ratio` to the power `k`.
pub open spec fn ratio_pow(ratio: nat, k: nat) -> nat
    decreases k,
{
    if k == 0 {
        1
    } else {
        ratio * ratio_pow(ratio, (k - 1) as nat)
    }
}

/// A side of length `n` in octave `k`: `n / ratio^k`, rounded down.
pub open spec fn octave_side(n: nat, ratio: nat, k: nat) -> nat {
    n / ratio_pow(ratio, k)
}

/// Index `i` moved into `0..n`.
pub open spec fn clamp(i: int, n: int) -> int {
    if i < 0 {
        0
    } else if i >= n {
        n - 1
    } else {
        i
    }
}

/// Sample `(x, y)` of a row-major buffer of width `w`.
pub open spec fn px(d: Seq<u8>, w: int, x: int, y: int) -> int {
    d[y * w + x] as int
}

/// The 1-4-6-4-1 binomial filter along a row, at `(x, y)`, with the border
/// replicated and the result rounded.
pub open spec fn hblur_at(d: Seq<u8>, w: int, x: int, y: int) -> u8 {
    ((px(d, w, clamp(x - 2, w), y) + 4 * px(d, w, clamp(x - 1, w), y) + 6 * px(d, w, x, y) + 4 * px(
        d,
        w,
        clamp(x + 1, w),
        y,
    ) + px(d, w, clamp(x + 2, w), y) + 8) / 16) as u8
}

/// The same filter along a column.
pub open spec fn vblur_at(d: Seq<u8>, w: int, h: int, x: int, y: int) -> u8 {
    ((px(d, w, x, clamp(y - 2, h)) + 4 * px(d, w, x, clamp(y - 1, h)) + 6 * px(d, w, x, y) + 4 * px(
        d,
        w,
        x,
        clamp(y + 1, h),
    ) + px(d, w, x, clamp(y + 2, h)) + 8) / 16) as u8
}

/// Row filter over a whole `w` by `h` buffer.
pub open spec fn hblur(d: Seq<u8>, w: int, h: int) -> Seq<u8> {
    Seq::new((w * h) as nat, |i: int| hblur_at(d, w, i % w, i / w))
}

/// Column filter over a whole `w` by `h` buffer.
pub open spec fn vblur(d: Seq<u8>, w: int, h: int) -> Seq<u8> {
    Seq::new((w * h) as nat, |i: int| vblur_at(d, w, h, i % w, i / w))
}

/// The Gaussian blur of a `w` by `h` buffer: rows, then columns.
pub open spec fn blurred(d: Seq<u8>, w: int, h: int) -> Seq<u8> {
    vblur(hblur(d, w, h), w, h)
}

/// Every `ratio`-th sample of every `ratio`-th row of a buffer of width `w`.
pub open spec fn decimated(d: Seq<u8>, w: int, h: int, ratio: int) -> Seq<u8> {
    Seq::new(
        ((w / ratio) * (h / ratio)) as nat,
        |i: int| d[(i / (w / ratio)) * ratio * w + (i % (w / ratio)) * ratio],
    )
}

/// The octave that follows `img` in a pyramid: blurred, then decimated.
pub open spec fn next_octave(img: GrayImage, ratio: nat) -> (nat, nat, Seq<u8>) {
    (
        img.width as nat / ratio,
        img.height as nat / ratio,
        decimated(blurred(img.data@, img.width as int, img.height as int), img.width as int, img.height as int, ratio as int),
    )
}

pub proof fn lemma_cell(x: int, y: int, w: int, h: int)
    requires
        0 <= x < w,
        0 <= y < h,
    ensures
        0 <= y * w + x < w * h,
{
    assert(0 <= y * w + x < w * h) by (nonlinear_arith)
        requires
            0 <= x < w,
            0 <= y < h,
    ;
}

pub proof fn lemma_split(i: int, w: int, h: int)
    requires
        0 <= i < w * h,
        w > 0,
    ensures
        0 <= i % w < w,
        0 <= i / w < h,
        (i / w) * w + i % w == i,
{
    lemma_fundamental_div_mod(i, w);
    assert((i / w) * w == w * (i / w)) by (nonlinear_arith);
    assert(0 <= i / w < h) by (nonlinear_arith)
        requires
            i == w * (i / w) + i % w,
            0 <= i % w < w,
            0 <= i < w * h,
            w > 0,
    ;
}

fn pixel(d: &Vec<u8>, w: usize, h: usize, x: usize, y: usize) -> (r: u8)
    requires
        d.len() == w * h,
        x < w,
        y < h,
    ensures
        r as int == px(d@, w as int, x as int, y as int),
{
    proof {
        lemma_cell(x as int, y as int, w as int, h as int);
    }
    d[y * w + x]
}

fn clamp_exec(i: usize, off: usize, back: bool, n: usize) -> (r: usize)
    requires
        n > 0,
        i < n,
        off <= 2,
    ensures
        r as int == clamp(if back { i - off } else { i + off }, n as int),
        r < n,
{
    if back {
        if i < off {
            0
        } else {
            i - off
        }
    } else {
        if off >= n - i {
            n - 1
        } else {
            i + off
        }
    }
}

fn hblur_exec(d: &Vec<u8>, w: usize, h: usize) -> (r: Vec<u8>)
    requires
        d.len() == w * h,
    ensures
        r@ == hblur(d@, w as int, h as int),
{
    let n = d.len();
    let mut out: Vec<u8> = Vec::new();
    let mut i: usize = 0;
    while i < n
        invariant
            n == d.len(),
            d.len() == w * h,
            i <= n,
            out.len() == i,
            forall|t: int| 0 <= t < i ==> #[trigger] out[t] == hblur_at(d@, w as int, t % (w as int), t / (w as int)),
        decreases n - i,
    {
        proof {
            assert(w > 0) by (nonlinear_arith)
                requires
                    i < w * h,
                    i >= 0,
            ;
            lemma_split(i as int, w as int, h as int);
        }
        let x = i % w;
        let y = i / w;
        let a = pixel(d, w, h, clamp_exec(x, 2, true, w), y) as u32;
        let b = pixel(d, w, h, clamp_exec(x, 1, true, w), y) as u32;
        let c = pixel(d, w, h, x, y) as u32;
        let e = pixel(d, w, h, clamp_exec(x, 1, false, w), y) as u32;
        let f = pixel(d, w, h, clamp_exec(x, 2, false, w), y) as u32;
        let v = ((a + 4 * b + 6 * c + 4 * e + f + 8) / 16) as u8;
        out.push(v);
        i = i + 1;
    }
    assert(out@ =~= hblur(d@, w as int, h as int));
    out
}

fn vblur_exec(d: &Vec<u8>, w: usize, h: usize) -> (r: Vec<u8>)
    requires
        d.len() == w * h,
    ensures
        r@ == vblur(d@, w as int, h as int),
{
    let n = d.len();
    let mut out: Vec<u8> = Vec::new();
    let mut i: usize = 0;
    while i < n
        invariant
            n == d.len(),
            d.len() == w * h,
            i <= n,
            out.len() == i,
            forall|t: int| 0 <= t < i ==> #[trigger] out[t] == vblur_at(d@, w as int, h as int, t % (w as int), t / (w as int)),
        decreases n - i,
    {
        proof {
            assert(w > 0) by (nonlinear_arith)
                requires
                    i < w * h,
                    i >= 0,
            ;
            lemma_split(i as int, w as int, h as int);
        }
        let x = i % w;
        let y = i / w;
        let a = pixel(d, w, h, x, clamp_exec(y, 2, true, h)) as u32;
        let b = pixel(d, w, h, x, clamp_exec(y, 1, true, h)) as u32;
        let c = pixel(d, w, h, x, y) as u32;
        let e = pixel(d, w, h, x, clamp_exec(y, 1, false, h)) as u32;
        let f = pixel(d, w, h, x, clamp_exec(y, 2, false, h)) as u32;
        let v = ((a + 4 * b + 6 * c + 4 * e + f + 8) / 16) as u8;
        out.push(v);
        i = i + 1;
    }
    assert(out@ =~= vblur(d@, w as int, h as int));
    out
}

pub fn decimate_exec(d: &Vec<u8>, w: usize, h: usize, ratio: usize) -> (r: Vec<u8>)
    requires
        d.len() == w * h,
        ratio >= 1,
    ensures
        r@ == decimated(d@, w as int, h as int, ratio as int),
        r.len() == (w / ratio) * (h / ratio),
{
    let w2 = w / ratio;
    let h2 = h / ratio;
    proof {
        lemma_fundamental_div_mod(w as int, ratio as int);
        lemma_fundamental_div_mod(h as int, ratio as int);
        assert(w2 * h2 <= w * h) by (nonlinear_arith)
            requires
                w2 * ratio <= w,
                h2 * ratio <= h,
                ratio >= 1,
                w2 >= 0,
                h2 >= 0,
        ;
    }
    let n2 = w2 * h2;
    let mut out: Vec<u8> = Vec::new();
    let mut i: usize = 0;
    while i < n2
        invariant
            d.len() == w * h,
            ratio >= 1,
            w2 == w / ratio,
            h2 == h / ratio,
            w2 * ratio <= w,
            h2 * ratio <= h,
            n2 == w2 * h2,
            i <= n2,
            out.len() == i,
            forall|t: int| 0 <= t < i ==> #[trigger] out[t] == d@[(t / (w2 as int)) * ratio * w + (t % (w2 as int)) * ratio],
        decreases n2 - i,
    {
        proof {
            assert(w2 > 0) by (nonlinear_arith)
                requires
                    i < w2 * h2,
                    i >= 0,
            ;
            lemma_split(i as int, w2 as int, h2 as int);
        }
        let x = i % w2;
        let y = i / w2;
        proof {
            assert(x * ratio < w && y * ratio < h) by (nonlinear_arith)
                requires
                    x < w2,
                    y < h2,
                    w2 * ratio <= w,
                    h2 * ratio <= h,
                    ratio >= 1,
            ;
            lemma_cell((x * ratio) as int, (y * ratio) as int, w as int, h as int);
        }
        let v = d[y * ratio * w + x * ratio];
        out.push(v);
        i = i + 1;
    }
    assert(out@ =~= decimated(d@, w as int, h as int, ratio as int));
    out
}

/// The octave after `cur`: blurred, then decimated by `ratio`.
fn octave_after(cur: &GrayImage, ratio: usize) -> (r: GrayImage)
    requires
        cur.wf(),
        ratio >= 1,
    ensures
        r.wf(),
        r.width == cur.width / ratio,
        r.height == cur.height / ratio,
        (r.width as nat, r.height as nat, r.data@) == next_octave(*cur, ratio as nat),
{
    let hb = hblur_exec(&cur.data, cur.width, cur.height);
    let bl = vblur_exec(&hb, cur.width, cur.height);
    let small = decimate_exec(&bl, cur.width, cur.height, ratio);
    GrayImage { width: cur.width / ratio, height: cur.height / ratio, data: small }
}

proof fn lemma_ratio_pow_pos(ratio: nat, k: nat)
    requires
        ratio >= 1,
    ensures
        ratio_pow(ratio, k) >= 1,
    decreases k,
{
    if k > 0 {
        lemma_ratio_pow_pos(ratio, (k - 1) as nat);
        lemma_mul_strictly_positive(ratio as int, ratio_pow(ratio, (k - 1) as nat) as int);
    }
}

/// No octave is larger than the image.
pub proof fn lemma_octave_side_le(n: nat, ratio: nat, k: nat)
    requires
        ratio >= 1,
    ensures
        octave_side(n, ratio, k) <= n,
{
    lemma_ratio_pow_pos(ratio, k);
    lemma_fundamental_div_mod(n as int, ratio_pow(ratio, k) as int);
    assert(octave_side(n, ratio, k) <= n) by (nonlinear_arith)
        requires
            n == ratio_pow(ratio, k) * (n / ratio_pow(ratio, k)) + n % ratio_pow(ratio, k),
            n % ratio_pow(ratio, k) >= 0,
            ratio_pow(ratio, k) >= 1,
            octave_side(n, ratio, k) == n / ratio_pow(ratio, k),
            n / ratio_pow(ratio, k) >= 0,
    ;
}

/// Each octave's side is the previous one's divided by the ratio, rounded
/// down.
pub proof fn lemma_octave_side_step(n: nat, ratio: nat, k: nat)
    requires
        ratio >= 1,
    ensures
        octave_side(n, ratio, k + 1) == octave_side(n, ratio, k) / ratio,
{
    lemma_ratio_pow_pos(ratio, k);
    lemma_div_denominator(n as int, ratio_pow(ratio, k) as int, ratio as int);
    assert(ratio_pow(ratio, k + 1) == ratio_pow(ratio, k) * ratio) by (nonlinear_arith)
        requires
            ratio_pow(ratio, k + 1) == ratio * ratio_pow(ratio, k),
    ;
}

/// The Gaussian pyramid of an image: octave 0 is the image itself, and
/// each further octave is the previous one blurred and then decimated by
/// `ratio`, so that octave `k` measures `width / ratio^k` by
/// `height / ratio^k`. Refused for an empty image or no octave.
pub fn gaussian_pyramid(img: &GrayImage, num_octaves: usize, ratio: usize) -> (r: Result<Vec<GrayImage>, DescriptorError>)
    requires
        img.wf(),
        ratio >= 1,
    ensures
        (img.width == 0 || img.height == 0 || num_octaves < 1) ==> r == Err::<Vec<GrayImage>, DescriptorError>(
            DescriptorError::InvalidInput,
        ),
        !(img.width == 0 || img.height == 0 || num_octaves < 1) ==> (r matches Ok(p) && p.len() == num_octaves
            && p[0].width == img.width && p[0].height == img.height && p[0].data@ == img.data@
            && (forall|k: int| 0 <= k < p.len() ==> (#[trigger] p[k]).wf()
                && p[k].width == octave_side(img.width as nat, ratio as nat, k as nat)
                && p[k].height == octave_side(img.height as nat, ratio as nat, k as nat))
            && (forall|k: int| 0 <= k < p.len() - 1 ==> (p[k + 1].width as nat, p[k + 1].height as nat, p[k + 1].data@)
                == next_octave(#[trigger] p[k], ratio as nat))),
{
    if img.is_empty() || num_octaves < 1 {
        return Err(DescriptorError::InvalidInput);
    }
    let mut p: Vec<GrayImage> = Vec::new();
    let first = GrayImage { width: img.width, height: img.height, data: img.data.clone() };
    assert(first.data@ =~= img.data@);
    p.push(first);
    proof {
        assert(ratio_pow(ratio as nat, 0) == 1);
    }
    while p.len() < num_octaves
        invariant
            img.wf(),
            ratio >= 1,
            1 <= p.len() <= num_octaves,
            p[0].width == img.width && p[0].height == img.height && p[0].data@ == img.data@,
            forall|k: int| 0 <= k < p.len() ==> (#[trigger] p[k]).wf()
                && p[k].width == octave_side(img.width as nat, ratio as nat, k as nat)
                && p[k].height == octave_side(img.height as nat, ratio as nat, k as nat),
            forall|k: int| 0 <= k < p.len() - 1 ==> (p[k + 1].width as nat, p[k + 1].height as nat, p[k + 1].data@)
                == next_octave(#[trigger] p[k], ratio as nat),
        decreases num_octaves - p.len(),
    {
        let last = p.len() - 1;
        let next = octave_after(&p[last], ratio);
        let ghost before = p@;
        proof {
            lemma_octave_side_step(img.width as nat, ratio as nat, last as nat);
            lemma_octave_side_step(img.height as nat, ratio as nat, last as nat);
        }
        p.push(next);
        proof {
            assert forall|k: int| 0 <= k < p.len() implies (#[trigger] p[k]).wf()
                && p[k].width == octave_side(img.width as nat, ratio as nat, k as nat)
                && p[k].height == octave_side(img.height as nat, ratio as nat, k as nat) by {
                if k < last + 1 {
                    assert(p[k] == before[k]);
                }
            }
            assert forall|k: int| 0 <= k < p.len() - 1 implies (p[k + 1].width as nat, p[k + 1].height as nat, p[k + 1].data@)
                == next_octave(#[trigger] p[k], ratio as nat) by {
                assert(p[k] == before[k]);
                if k + 1 < last + 1 {
                    assert(p[k + 1] == before[k + 1]);
                }
            }
        }
    }
    Ok(p)
}

} // verus!
