//! Line segment detection by region growing: pixels whose gradient is
//! strong enough are grouped with their 8-connected neighbours of the same
//! gradient orientation sector, and each large enough group becomes a
//! segment across its extent along the level line.

use vstd::prelude::*;
use crate::keyline::{KeyLine, Segment, MAX_SCALE, key_lines, keyline_at, keyline_of, lemma_keyline_at, lemma_pow_grows, octave_scale};
use crate::matcher::DescriptorError;
use crate::pyramid::{GrayImage, blurred, clamp, decimated, decimate_exec, gaussian_pyramid, lemma_cell, next_octave, px, ratio_pow};

verus! {

/// An image as spec code reads it: its sides and its pixels, row by row.
pub struct Raster {
    pub width: int,
    pub height: int,
    pub data: Seq<u8>,
}

/// The raster of an image.
pub open spec fn raster_of(img: &GrayImage) -> Raster {
    Raster { width: img.width as int, height: img.height as int, data: img.data@ }
}

/// Central-difference gradient at pixel `(x, y)`, with the border
/// replicated.
pub open spec fn grad(img: Raster, x: int, y: int) -> (int, int) {
    let d = img.data;
    let w = img.width;
    let h = img.height;
    (px(d, w, clamp(x + 1, w), y) - px(d, w, clamp(x - 1, w), y), px(d, w, x, clamp(y + 1, h)) - px(
        d,
        w,
        x,
        clamp(y - 1, h),
    ))
}

/// Orientation sector of a gradient: eight sectors of 45 degrees.
pub open spec fn sector(g: (int, int)) -> int {
    let (gx, gy) = g;
    if gx >= 0 && gy >= 0 {
        if gx >= gy { 0 } else { 1 }
    } else if gx < 0 && gy >= 0 {
        if -gx < gy { 2 } else { 3 }
    } else if gx < 0 {
        if -gx >= -gy { 4 } else { 5 }
    } else {
        if gx < -gy { 6 } else { 7 }
    }
}

/// Pixel `i` (row-major) may join a segment: the mask, if any, keeps it,
/// and its squared gradient magnitude reaches `threshold`.
pub open spec fn candidate(img: Raster, mask: Seq<u8>, threshold: int, i: int) -> bool {
    let x = i % img.width;
    let y = i / img.width;
    let g = grad(img, x, y);
    &&& (mask.len() == 0 || mask[i] != 0)
    &&& g.0 * g.0 + g.1 * g.1 >= threshold
}

/// Number of `false` entries.
pub open spec fn count_false(s: Seq<bool>) -> nat
    decreases s.len(),
{
    if s.len() == 0 {
        0
    } else {
        count_false(s.drop_last()) + if s.last() { 0nat } else { 1nat }
    }
}

proof fn lemma_count_false_set(s: Seq<bool>, i: int)
    requires
        0 <= i < s.len(),
        !s[i],
    ensures
        count_false(s.update(i, true)) + 1 == count_false(s),
    decreases s.len(),
{
    let t = s.update(i, true);
    if i == s.len() - 1 {
        assert(t.drop_last() =~= s.drop_last());
    } else {
        assert(t.drop_last() =~= s.drop_last().update(i, true));
        lemma_count_false_set(s.drop_last(), i);
    }
}

fn grad_exec(img: &GrayImage, x: usize, y: usize) -> (g: (i64, i64))
    requires
        img.wf(),
        x < img.width,
        y < img.height,
    ensures
        (g.0 as int, g.1 as int) == grad(raster_of(img), x as int, y as int),
        -255 <= g.0 <= 255,
        -255 <= g.1 <= 255,
{
    let w = img.width;
    let h = img.height;
    let xr = if x + 1 < w { x + 1 } else { x };
    let xl = if x > 0 { x - 1 } else { x };
    let yd = if y + 1 < h { y + 1 } else { y };
    let yu = if y > 0 { y - 1 } else { y };
    proof {
        lemma_cell(xr as int, y as int, w as int, h as int);
        lemma_cell(xl as int, y as int, w as int, h as int);
        lemma_cell(x as int, yd as int, w as int, h as int);
        lemma_cell(x as int, yu as int, w as int, h as int);
    }
    let right = img.data[y * w + xr] as i64;
    let left = img.data[y * w + xl] as i64;
    let down = img.data[yd * w + x] as i64;
    let up = img.data[yu * w + x] as i64;
    (right - left, down - up)
}

fn sector_exec(g: (i64, i64)) -> (s: u8)
    requires
        -255 <= g.0 <= 255,
        -255 <= g.1 <= 255,
    ensures
        s as int == sector((g.0 as int, g.1 as int)),
        s < 8,
{
    let (gx, gy) = g;
    if gx >= 0 && gy >= 0 {
        if gx >= gy { 0 } else { 1 }
    } else if gx < 0 && gy >= 0 {
        if -gx < gy { 2 } else { 3 }
    } else if gx < 0 {
        if -gx >= -gy { 4 } else { 5 }
    } else {
        if gx < -gy { 6 } else { 7 }
    }
}

/// Largest side of an image that detection accepts, so that fixed-point
/// coordinates fit in 32 bits.
pub const MAX_SIDE: usize = 0x80_0000;

/// Neighbour `k` (of eight, row by row, the pixel itself skipped) of pixel
/// `i` in a `w` by `h` image, if inside it.
pub open spec fn nb(i: int, k: int, w: int, h: int) -> Option<int> {
    let x = i % w;
    let y = i / w;
    let kk = if k >= 4 { k + 1 } else { k };
    let dx = kk % 3;
    let dy = kk / 3;
    if (dx == 0 && x == 0) || (dy == 0 && y == 0) || (dx == 2 && x + 1 >= w) || (dy == 2 && y + 1 >= h) {
        None
    } else {
        Some((y + dy - 1) * w + (x + dx - 1))
    }
}

fn neighbour(i: usize, k: usize, w: usize, h: usize) -> (r: Option<usize>)
    requires
        i < w * h,
        w * h <= usize::MAX,
        k < 8,
    ensures
        r matches Some(q) ==> q < w * h,
        (match r { Some(q) => Some(q as int), None => None::<int> }) == nb(i as int, k as int, w as int, h as int),
{
    proof {
        assert(w > 0) by (nonlinear_arith)
            requires
                i < w * h,
        ;
        crate::pyramid::lemma_split(i as int, w as int, h as int);
    }
    let x = i % w;
    let y = i / w;
    let kk = if k >= 4 {
        k + 1
    } else {
        k
    };
    let dx = kk % 3;
    let dy = kk / 3;
    if (dx == 0 && x == 0) || (dy == 0 && y == 0) || (dx == 2 && x + 1 >= w) || (dy == 2 && y + 1 >= h) {
        return None;
    }
    let nx = x + dx - 1;
    let ny = y + dy - 1;
    proof {
        lemma_cell(nx as int, ny as int, w as int, h as int);
    }
    Some(ny * w + nx)
}

/// The state of region growing over an image's pixels (row-major): the
/// next seed; which pixels are taken (not candidates, or already in a
/// group); the pixels waiting to have their neighbours looked at; the
/// pixel `p` whose neighbour `k` is next (`k == 8` once all are done);
/// the size of the group so far, its members of least and greatest
/// projection on the level line and those projections; the group's
/// sector and first gradient; whether a group is open; the segments so far.
pub struct GrowState {
    pub seed: int,
    pub used: Seq<bool>,
    pub stack: Seq<usize>,
    pub k: int,
    pub p: int,
    pub count: int,
    pub lo_i: int,
    pub hi_i: int,
    pub lo_p: int,
    pub hi_p: int,
    pub s0: int,
    pub gx: int,
    pub gy: int,
    pub in_group: bool,
    pub segs: Seq<Segment>,
}

/// Sector of each pixel's gradient.
pub open spec fn sectors(img: Raster) -> Seq<int> {
    Seq::new(
        (img.width * img.height) as nat,
        |i: int| sector(grad(img, i % img.width, i / img.width)),
    )
}

/// The segment between the centres of pixels `a` and `b`.
pub open spec fn segment_between(w: int, a: int, b: int) -> Segment {
    Segment {
        start_x: ((a % w) * 256 + 128) as u32,
        start_y: ((a / w) * 256 + 128) as u32,
        end_x: ((b % w) * 256 + 128) as u32,
        end_y: ((b / w) * 256 + 128) as u32,
    }
}

/// One step of region growing.
/// - No group open: a taken seed is skipped; an untaken one opens a group
///   holding it alone.
/// - All neighbours of the last pixel looked at: with nothing waiting, the
///   group closes (a segment between its extreme members, if it has at
///   least `min_pixels` members); otherwise the last waiting pixel joins
///   the count and the extremes, and its neighbours come next.
/// - Otherwise neighbour `k` of `p` joins the waiting pixels if it is
///   inside the image, untaken and of the group's sector.
pub open spec fn grow_step(img: Raster, min_pixels: int, s: GrowState) -> GrowState {
    let w = img.width;
    let n = (img.width * img.height) as int;
    let sect = sectors(img);
    if !s.in_group {
        if s.used[s.seed] {
            GrowState { seed: s.seed + 1, ..s }
        } else {
            let g = grad(img, s.seed % w, s.seed / w);
            GrowState {
                used: s.used.update(s.seed, true),
                stack: seq![s.seed as usize],
                k: 8,
                count: 0,
                lo_i: s.seed,
                hi_i: s.seed,
                lo_p: i64::MAX as int,
                hi_p: i64::MIN as int,
                s0: sect[s.seed],
                gx: g.0,
                gy: g.1,
                in_group: true,
                ..s
            }
        }
    } else if s.k >= 8 {
        if s.stack.len() == 0 {
            GrowState {
                segs: if s.count >= min_pixels { s.segs.push(segment_between(w, s.lo_i, s.hi_i)) } else { s.segs },
                in_group: false,
                seed: s.seed + 1,
                ..s
            }
        } else {
            let p = s.stack.last() as int;
            let proj = (p % w) * (-s.gy) + (p / w) * s.gx;
            let lo = proj < s.lo_p;
            let hi = proj > s.hi_p;
            GrowState {
                stack: s.stack.drop_last(),
                p: p,
                count: if s.count < n { s.count + 1 } else { s.count },
                lo_p: if lo { proj } else { s.lo_p },
                lo_i: if lo { p } else { s.lo_i },
                hi_p: if hi { proj } else { s.hi_p },
                hi_i: if hi { p } else { s.hi_i },
                k: 0,
                ..s
            }
        }
    } else {
        let q = nb(s.p, s.k, w, img.height);
        if q is Some && !s.used[q->0] && sect[q->0] == s.s0 {
            GrowState { used: s.used.update(q->0, true), stack: s.stack.push(q->0 as usize), k: s.k + 1, ..s }
        } else {
            GrowState { k: s.k + 1, ..s }
        }
    }
}

/// Growing is over: no group open and no seed left.
pub open spec fn grow_done(img: Raster, s: GrowState) -> bool {
    !s.in_group && s.seed >= img.width * img.height
}

/// The state after at most `fuel` steps, stopping once growing is over.
pub open spec fn grow_run(img: Raster, min_pixels: int, s: GrowState, fuel: nat) -> GrowState
    decreases fuel,
{
    if grow_done(img, s) || fuel == 0 {
        s
    } else {
        grow_run(img, min_pixels, grow_step(img, min_pixels, s), (fuel - 1) as nat)
    }
}

/// Steps granted to growing: each pixel is a seed once, waits at most once
/// and has eight neighbours looked at, so `10 * n + 10` steps suffice.
pub open spec fn grow_fuel(img: Raster) -> nat {
    (10 * img.width * img.height + 10) as nat
}

/// The first state: every non-candidate pixel taken, nothing else.
pub open spec fn grow_start(img: Raster, mask: Seq<u8>, threshold: int) -> GrowState {
    GrowState {
        seed: 0,
        used: Seq::new((img.width * img.height) as nat, |i: int| !candidate(img, mask, threshold, i)),
        stack: Seq::empty(),
        k: 8,
        p: 0,
        count: 0,
        lo_i: 0,
        hi_i: 0,
        lo_p: i64::MAX as int,
        hi_p: i64::MIN as int,
        s0: 0,
        gx: 0,
        gy: 0,
        in_group: false,
        segs: Seq::empty(),
    }
}

/// The segments that region growing finds.
pub open spec fn segments_of(img: Raster, mask: Seq<u8>, threshold: int, min_pixels: int) -> Seq<Segment> {
    grow_run(img, min_pixels, grow_start(img, mask, threshold), grow_fuel(img)).segs
}

/// Segments of the image, by region growing: seeds are taken in
/// row-major order, and each untaken candidate seed grows a group of
/// 8-connected untaken candidates of its gradient sector; a group of at
/// least `min_pixels` members gives the segment between its members of
/// least and greatest projection on the level line of the seed's gradient.
/// Pixels the mask zeroes, if a mask is given, take no part. Refused when
/// the mask's size differs from the image's or a side exceeds `MAX_SIDE`.
pub fn detect_segments(img: &GrayImage, mask: &Vec<u8>, threshold: u32, min_pixels: usize) -> (r: Result<Vec<Segment>, DescriptorError>)
    requires
        img.wf(),
    ensures
        ((mask.len() != 0 && mask.len() != img.data.len()) || img.width > MAX_SIDE || img.height > MAX_SIDE)
            ==> r == Err::<Vec<Segment>, DescriptorError>(DescriptorError::InvalidInput),
        !((mask.len() != 0 && mask.len() != img.data.len()) || img.width > MAX_SIDE || img.height > MAX_SIDE)
            ==> (r matches Ok(segs) && segs@ == segments_of(raster_of(img), mask@, threshold as int, min_pixels as int)),
{
    if (mask.len() != 0 && mask.len() != img.data.len()) || img.width > MAX_SIDE || img.height > MAX_SIDE {
        return Err(DescriptorError::InvalidInput);
    }
    let w = img.width;
    let h = img.height;
    let n = img.data.len();
    let ghost sect_s = sectors(raster_of(img));
    let mut used: Vec<bool> = Vec::new();
    let mut sect: Vec<u8> = Vec::new();
    let mut i: usize = 0;
    while i < n
        invariant
            img.wf(),
            w == img.width,
            h == img.height,
            n == w * h,
            sect_s == sectors(raster_of(img)),
            mask.len() == 0 || mask.len() == n,
            i <= n,
            used.len() == i,
            sect.len() == i,
            forall|t: int| 0 <= t < i ==> #[trigger] used@[t] == !candidate(raster_of(img), mask@, threshold as int, t),
            forall|t: int| 0 <= t < i ==> #[trigger] sect@[t] as int == sect_s[t],
        decreases n - i,
    {
        proof {
            assert(w > 0) by (nonlinear_arith)
                requires
                    i < w * h,
            ;
            crate::pyramid::lemma_split(i as int, w as int, h as int);
        }
        let g = grad_exec(img, i % w, i / w);
        proof {
            assert(0 <= g.0 * g.0 <= 255 * 255) by (nonlinear_arith)
                requires -255 <= g.0 <= 255;
            assert(0 <= g.1 * g.1 <= 255 * 255) by (nonlinear_arith)
                requires -255 <= g.1 <= 255;
        }
        let m2 = g.0 * g.0 + g.1 * g.1;
        let keep = (mask.len() == 0 || mask[i] != 0) && m2 >= threshold as i64;
        used.push(!keep);
        sect.push(sector_exec(g));
        i = i + 1;
    }
    proof {
        assert(used@ =~= grow_start(raster_of(img), mask@, threshold as int).used);
    }
    let mut seed: usize = 0;
    let mut stack: Vec<usize> = Vec::new();
    let mut k: usize = 8;
    let mut p: usize = 0;
    let mut count: usize = 0;
    let mut lo_i: usize = 0;
    let mut hi_i: usize = 0;
    let mut lo_p: i64 = i64::MAX;
    let mut hi_p: i64 = i64::MIN;
    let mut s0: u8 = 0;
    let mut gx: i64 = 0;
    let mut gy: i64 = 0;
    let mut in_group: bool = false;
    let mut segs: Vec<Segment> = Vec::new();
    proof {
        assert(n <= 0x40_0000_0000_0000) by (nonlinear_arith)
            requires
                n == w * h,
                w <= 0x80_0000,
                h <= 0x80_0000,
        ;
    }
    let mut fuel: u64 = 10 * (n as u64) + 10;
    proof {
        assert(10 * img.width * img.height == 10 * (img.width * img.height)) by (nonlinear_arith);
    }
    assert(fuel as nat == grow_fuel(raster_of(img)));
    let ghost mp = min_pixels as int;
    let ghost target = segments_of(raster_of(img), mask@, threshold as int, mp);
    proof {
        let st = GrowState { seed: 0, used: used@, stack: stack@, k: 8, p: 0, count: 0, lo_i: 0, hi_i: 0,
            lo_p: i64::MAX as int, hi_p: i64::MIN as int, s0: 0, gx: 0, gy: 0, in_group: false, segs: segs@ };
        assert(stack@ =~= Seq::<usize>::empty());
        assert(segs@ =~= Seq::<Segment>::empty());
        assert(st == grow_start(raster_of(img), mask@, threshold as int));
    }
    while (in_group || seed < n) && fuel > 0
        invariant
            img.wf(),
            w == img.width,
            h == img.height,
            w <= MAX_SIDE,
            h <= MAX_SIDE,
            n == w * h,
            sect_s == sectors(raster_of(img)),
            mp == min_pixels as int,
            target == segments_of(raster_of(img), mask@, threshold as int, mp),
            sect.len() == n,
            forall|t: int| 0 <= t < n ==> #[trigger] sect@[t] as int == sect_s[t],
            used.len() == n,
            seed <= n,
            in_group ==> seed < n,
            k <= 8,
            k < 8 ==> p < n,
            lo_i < n || !in_group,
            hi_i < n || !in_group,
            count <= n,
            -255 <= gx <= 255,
            -255 <= gy <= 255,
            forall|j: int| 0 <= j < stack.len() ==> #[trigger] stack@[j] < n,
            grow_run(raster_of(img), mp, GrowState { seed: seed as int, used: used@, stack: stack@, k: k as int, p: p as int,
                count: count as int, lo_i: lo_i as int, hi_i: hi_i as int, lo_p: lo_p as int, hi_p: hi_p as int,
                s0: s0 as int, gx: gx as int, gy: gy as int, in_group, segs: segs@ }, fuel as nat).segs == target,
        decreases fuel,
    {
        let ghost before = GrowState { seed: seed as int, used: used@, stack: stack@, k: k as int, p: p as int,
            count: count as int, lo_i: lo_i as int, hi_i: hi_i as int, lo_p: lo_p as int, hi_p: hi_p as int,
            s0: s0 as int, gx: gx as int, gy: gy as int, in_group, segs: segs@ };
        if !in_group {
            if used[seed] {
                seed = seed + 1;
                proof {
                    let after = GrowState { seed: seed as int, ..before };
                    assert(after == grow_step(raster_of(img), mp, before));
                }
            } else {
                used.set(seed, true);
                proof {
                    assert(w > 0) by (nonlinear_arith)
                        requires
                            seed < w * h,
                    ;
                    crate::pyramid::lemma_split(seed as int, w as int, h as int);
                }
                let g = grad_exec(img, seed % w, seed / w);
                gx = g.0;
                gy = g.1;
                s0 = sect[seed];
                stack = Vec::new();
                stack.push(seed);
                k = 8;
                count = 0;
                lo_i = seed;
                hi_i = seed;
                lo_p = i64::MAX;
                hi_p = i64::MIN;
                in_group = true;
                proof { assert(GrowState { seed: seed as int, used: used@, stack: stack@, k: k as int, p: p as int,
                count: count as int, lo_i: lo_i as int, hi_i: hi_i as int, lo_p: lo_p as int, hi_p: hi_p as int,
                s0: s0 as int, gx: gx as int, gy: gy as int, in_group, segs: segs@ } == grow_step(raster_of(img), mp, before)); }
                proof {
                    assert(stack@ =~= seq![seed]);
                    assert(s0 as int == sectors(raster_of(img))[seed as int]);
                    assert((gx as int, gy as int) == grad(raster_of(img), seed as int % w as int, seed as int / w as int));
                }
            }
        } else if k >= 8 {
            if stack.len() == 0 {
                assert(segs@ == before.segs);
                assert(count as int == before.count);
                if count >= min_pixels {
                    proof {
                        assert(w > 0) by (nonlinear_arith)
                            requires
                                lo_i < w * h,
                        ;
                        crate::pyramid::lemma_split(lo_i as int, w as int, h as int);
                        crate::pyramid::lemma_split(hi_i as int, w as int, h as int);
                    }
                    let sg = Segment {
                        start_x: ((lo_i % w) * 256 + 128) as u32,
                        start_y: ((lo_i / w) * 256 + 128) as u32,
                        end_x: ((hi_i % w) * 256 + 128) as u32,
                        end_y: ((hi_i / w) * 256 + 128) as u32,
                    };
                    proof {
                        assert(lo_i % w < 0x80_0000 && hi_i % w < 0x80_0000);
                        assert(lo_i / w < 0x80_0000 && hi_i / w < 0x80_0000);
                        assert(sg == segment_between(w as int, lo_i as int, hi_i as int));
                    }
                    segs.push(sg);
                }
                in_group = false;
                seed = seed + 1;
                proof { assert(GrowState { seed: seed as int, used: used@, stack: stack@, k: k as int, p: p as int,
                count: count as int, lo_i: lo_i as int, hi_i: hi_i as int, lo_p: lo_p as int, hi_p: hi_p as int,
                s0: s0 as int, gx: gx as int, gy: gy as int, in_group, segs: segs@ } == grow_step(raster_of(img), mp, before)); }
            } else {
                let q = stack.pop().unwrap();
                proof {
                    assert(w > 0) by (nonlinear_arith)
                        requires
                            q < w * h,
                    ;
                    crate::pyramid::lemma_split(q as int, w as int, h as int);
                }
                p = q;
                if count < n {
                    count = count + 1;
                }
                let px = (q % w) as i64;
                let py = (q / w) as i64;
                proof {
                    assert(-255 * 0x80_0000 <= px * (-gy) <= 255 * 0x80_0000) by (nonlinear_arith)
                        requires 0 <= px <= 0x80_0000, -255 <= gy <= 255;
                    assert(-255 * 0x80_0000 <= py * gx <= 255 * 0x80_0000) by (nonlinear_arith)
                        requires 0 <= py <= 0x80_0000, -255 <= gx <= 255;
                }
                let proj = px * (-gy) + py * gx;
                if proj < lo_p {
                    lo_p = proj;
                    lo_i = q;
                }
                if proj > hi_p {
                    hi_p = proj;
                    hi_i = q;
                }
                k = 0;
                proof { assert(GrowState { seed: seed as int, used: used@, stack: stack@, k: k as int, p: p as int,
                count: count as int, lo_i: lo_i as int, hi_i: hi_i as int, lo_p: lo_p as int, hi_p: hi_p as int,
                s0: s0 as int, gx: gx as int, gy: gy as int, in_group, segs: segs@ } == grow_step(raster_of(img), mp, before)); }
            }
        } else {
            match neighbour(p, k, w, h) {
                Some(q) => {
                    if !used[q] && sect[q] == s0 {
                        used.set(q, true);
                        stack.push(q);
                    }
                },
                None => {},
            }
            k = k + 1;
            proof { assert(GrowState { seed: seed as int, used: used@, stack: stack@, k: k as int, p: p as int,
                count: count as int, lo_i: lo_i as int, hi_i: hi_i as int, lo_p: lo_p as int, hi_p: hi_p as int,
                s0: s0 as int, gx: gx as int, gy: gy as int, in_group, segs: segs@ } == grow_step(raster_of(img), mp, before)); }
        }
        proof {
            let after = GrowState { seed: seed as int, used: used@, stack: stack@, k: k as int, p: p as int,
                count: count as int, lo_i: lo_i as int, hi_i: hi_i as int, lo_p: lo_p as int, hi_p: hi_p as int,
                s0: s0 as int, gx: gx as int, gy: gy as int, in_group, segs: segs@ };
            assert(after == grow_step(raster_of(img), mp, before));
        }
        fuel = fuel - 1;
    }
    Ok(segs)
}

/// A record's image coordinates are its octave coordinates times
/// `ratio^octave`.
pub open spec fn scaled_from_octave(k: KeyLine, ratio: nat) -> bool {
    let s = ratio_pow(ratio, k.octave as nat);
    &&& k.start_point_x == k.s_point_in_octave_x * s && k.start_point_y == k.s_point_in_octave_y * s
    &&& k.end_point_x == k.e_point_in_octave_x * s && k.end_point_y == k.e_point_in_octave_y * s
}

/// Inputs a multi-octave detection refuses.
pub open spec fn detect_refused(image: &GrayImage, scale: i32, num_octaves: i32, mask: Seq<u8>) -> bool {
    ||| image.width == 0 || image.height == 0
    ||| num_octaves < 1 || scale < 1
    ||| mask.len() != 0 && mask.len() != image.data.len()
    ||| image.width > MAX_SIDE || image.height > MAX_SIDE
    ||| ratio_pow(scale as nat, (num_octaves - 1) as nat) > MAX_SCALE
}

/// The octave after a raster: blurred, then decimated by `ratio`.
pub open spec fn next_raster(r: Raster, ratio: int) -> Raster {
    Raster { width: r.width / ratio, height: r.height / ratio, data: decimated(blurred(r.data, r.width, r.height), r.width, r.height, ratio) }
}

/// Octave `k` of the pyramid of a raster.
pub open spec fn octave_raster(r: Raster, ratio: int, k: nat) -> Raster
    decreases k,
{
    if k == 0 {
        r
    } else {
        next_raster(octave_raster(r, ratio, (k - 1) as nat), ratio)
    }
}

/// The mask of octave `k`: none stays none; otherwise the previous
/// octave's mask decimated as that octave's pixels are.
pub open spec fn octave_mask(m: Seq<u8>, r: Raster, ratio: int, k: nat) -> Seq<u8>
    decreases k,
{
    if k == 0 {
        m
    } else {
        let prev = octave_mask(m, r, ratio, (k - 1) as nat);
        let o = octave_raster(r, ratio, (k - 1) as nat);
        if prev.len() == 0 { prev } else { decimated(prev, o.width, o.height, ratio) }
    }
}

/// The records of octave `k`: its segments, in order, each numbered by its
/// place among them.
pub open spec fn octave_records(r: Raster, mask: Seq<u8>, threshold: int, min_pixels: int, ratio: u32, k: nat) -> Seq<KeyLine> {
    let segs = segments_of(octave_raster(r, ratio as int, k), octave_mask(mask, r, ratio as int, k), threshold, min_pixels);
    Seq::new(segs.len(), |i: int| keyline_at(segs[i], k as u32, ratio, i as usize, r.width as u32, r.height as u32))
}

/// The records of the first `n` octaves, octave by octave.
pub open spec fn detected_lines(r: Raster, mask: Seq<u8>, threshold: int, min_pixels: int, ratio: u32, n: nat) -> Seq<KeyLine>
    decreases n,
{
    if n == 0 {
        Seq::empty()
    } else {
        detected_lines(r, mask, threshold, min_pixels, ratio, (n - 1) as nat) + octave_records(r, mask, threshold, min_pixels, ratio, (n - 1) as nat)
    }
}

/// Detects line segments octave by octave.
pub struct LSDDetector {
    threshold: u32,
    min_pixels: usize,
}

impl LSDDetector {
    /// Squared gradient magnitude a pixel needs to join a segment.
    pub closed spec fn threshold(&self) -> u32 {
        self.threshold
    }

    /// Pixels a segment needs.
    pub closed spec fn min_pixels(&self) -> usize {
        self.min_pixels
    }

    /// A detector with the default thresholds: a gradient of magnitude 32
    /// and segments of ten pixels.
    pub fn new() -> (r: Self)
        ensures
            r.threshold() == 1024 && r.min_pixels() == 10,
    {
        LSDDetector { threshold: 1024, min_pixels: 10 }
    }

    /// A detector with the given squared gradient threshold and least
    /// segment size.
    pub fn new_1(threshold: u32, min_pixels: usize) -> (r: Self)
        ensures
            r.threshold() == threshold && r.min_pixels() == min_pixels,
    {
        LSDDetector { threshold, min_pixels }
    }

    /// A detector with the default thresholds, as `new` makes it.
    pub fn create_lsd_detector() -> (r: Self)
        ensures
            r.threshold() == 1024 && r.min_pixels() == 10,
    {
        Self::new()
    }

    /// A detector with the given thresholds, as `new_1` makes it.
    pub fn create_lsd_detector_1(threshold: u32, min_pixels: usize) -> (r: Self)
        ensures
            r.threshold() == threshold && r.min_pixels() == min_pixels,
    {
        Self::new_1(threshold, min_pixels)
    }

    /// The records of the segments detected in octave `k`, with the
    /// octave's own raster and mask.
    fn octave_lines(&self, oct: &GrayImage, mask: &Vec<u8>, k: u32, ratio: u32, width: u32, height: u32) -> (r: Result<Vec<KeyLine>, DescriptorError>)
        requires
            oct.wf(),
            oct.width <= MAX_SIDE,
            oct.height <= MAX_SIDE,
            mask.len() == 0 || mask.len() == oct.data.len(),
            ratio_pow(ratio as nat, k as nat) <= MAX_SCALE,
            width > 0,
            height > 0,
        ensures
            r matches Ok(v) && v@ == ({
                let segs = segments_of(raster_of(oct), mask@, self.threshold() as int, self.min_pixels() as int);
                Seq::new(segs.len(), |i: int| keyline_at(segs[i], k, ratio, i as usize, width, height))
            }),
    {
        let segs = match detect_segments(oct, mask, self.threshold, self.min_pixels) {
            Ok(s) => s,
            Err(e) => {
                return Err(e);
            },
        };
        let recs = match key_lines(&segs, k, ratio, width, height) {
            Ok(v) => v,
            Err(e) => {
                return Err(e);
            },
        };
        proof {
            let sp = segments_of(raster_of(oct), mask@, self.threshold() as int, self.min_pixels() as int);
            assert forall|i: int| 0 <= i < recs.len() implies #[trigger] recs@[i] == keyline_at(sp[i], k, ratio, i as usize, width, height) by {
                assert(keyline_of(segs[i], k, ratio, i as usize, width, height, recs[i]));
                lemma_keyline_at(segs[i], k, ratio, i as usize, width, height, recs[i]);
            }
            assert(recs@ =~= Seq::new(sp.len(), |i: int| keyline_at(sp[i], k, ratio, i as usize, width, height)));
        }
        Ok(recs)
    }

    /// The line records of `image`: its Gaussian pyramid of `num_octaves`
    /// octaves with reduction `scale` is built, segments are detected in
    /// each octave (the mask, decimated alongside, keeps its meaning), and
    /// each octave's segments become records numbered in order of
    /// detection, octave after octave. Refused for an empty image, no
    /// octave, a scale below one, a mask of another size, a side over
    /// `MAX_SIDE`, or a deepest octave whose scale exceeds `MAX_SCALE`.
    #[verifier::rlimit(60)]
    pub fn detect(&self, image: &GrayImage, scale: i32, num_octaves: i32, mask: &Vec<u8>) -> (r: Result<Vec<KeyLine>, DescriptorError>)
        requires
            image.wf(),
        ensures
            detect_refused(image, scale, num_octaves, mask@) ==> r == Err::<Vec<KeyLine>, DescriptorError>(DescriptorError::InvalidInput),
            !detect_refused(image, scale, num_octaves, mask@) ==> (r matches Ok(lines) && lines@ == detected_lines(
                raster_of(image),
                mask@,
                self.threshold() as int,
                self.min_pixels() as int,
                scale as u32,
                num_octaves as nat,
            )),
    {
        if image.width == 0 || image.height == 0 || num_octaves < 1 || scale < 1 || (mask.len() != 0 && mask.len()
            != image.data.len()) || image.width > MAX_SIDE || image.height > MAX_SIDE {
            return Err(DescriptorError::InvalidInput);
        }
        let ratio = scale as u32;
        let deepest = (num_octaves - 1) as u32;
        if octave_scale(ratio, deepest).is_none() {
            return Err(DescriptorError::InvalidInput);
        }
        let pyramid = match gaussian_pyramid(image, num_octaves as usize, scale as usize) {
            Ok(p) => p,
            Err(e) => {
                return Err(e);
            },
        };
        let ghost rr = raster_of(image);
        let ghost thr = self.threshold() as int;
        let ghost mp = self.min_pixels() as int;
        proof {
            assert forall|t: int| 0 <= t < pyramid.len() implies (#[trigger] pyramid[t]).wf() && pyramid[t].width <= image.width
                && pyramid[t].height <= image.height by {
                crate::pyramid::lemma_octave_side_le(image.width as nat, ratio as nat, t as nat);
                crate::pyramid::lemma_octave_side_le(image.height as nat, ratio as nat, t as nat);
            }
            lemma_pyramid_rasters(pyramid@, image, ratio as int);
        }
        let mut lines: Vec<KeyLine> = Vec::new();
        let mut cur_mask: Vec<u8> = mask.clone();
        assert(cur_mask@ =~= mask@);
        let mut k: usize = 0;
        while k < pyramid.len()
            invariant
                image.wf(),
                !detect_refused(image, scale, num_octaves, mask@),
                ratio == scale,
                rr == raster_of(image),
                thr == self.threshold() as int,
                mp == self.min_pixels() as int,
                deepest == num_octaves - 1,
                ratio_pow(ratio as nat, deepest as nat) <= MAX_SCALE,
                pyramid.len() == num_octaves,
                k <= pyramid.len(),
                forall|t: int| 0 <= t < pyramid.len() ==> (#[trigger] pyramid[t]).wf() && pyramid[t].width <= image.width
                    && pyramid[t].height <= image.height,
                forall|t: int| 0 <= t < pyramid.len() ==> raster_of(&#[trigger] pyramid[t]) == octave_raster(rr, ratio as int, t as nat),
                k < pyramid.len() ==> (cur_mask.len() == 0 || cur_mask.len() == pyramid[k as int].data.len()),
                k < pyramid.len() ==> cur_mask@ == octave_mask(mask@, rr, ratio as int, k as nat),
                lines@ == detected_lines(rr, mask@, thr, mp, ratio, k as nat),
            decreases pyramid.len() - k,
        {
            let oct = &pyramid[k];
            proof {
                if ratio_pow(ratio as nat, k as nat) > MAX_SCALE {
                    lemma_pow_grows(ratio as nat, k as nat, deepest as nat);
                }
            }
            let recs = match self.octave_lines(oct, &cur_mask, k as u32, ratio, image.width as u32, image.height as u32) {
                Ok(v) => v,
                Err(e) => {
                    return Err(e);
                },
            };
            proof {
                assert(recs@ == octave_records(rr, mask@, thr, mp, ratio, k as nat));
            }
            let ghost before = lines@;
            let mut t: usize = 0;
            while t < recs.len()
                invariant
                    t <= recs.len(),
                    lines@ == before + recs@.take(t as int),
                decreases recs.len() - t,
            {
                lines.push(recs[t]);
                assert(recs@.take(t + 1) =~= recs@.take(t as int).push(recs@[t as int]));
                t = t + 1;
            }
            assert(recs@.take(t as int) =~= recs@);
            if k + 1 < pyramid.len() && cur_mask.len() != 0 {
                proof {
                    assert(raster_of(&pyramid[k as int + 1]) == octave_raster(rr, ratio as int, (k + 1) as nat));
                }
                cur_mask = decimate_exec(&cur_mask, oct.width, oct.height, scale as usize);
                proof {
                    assert(raster_of(&pyramid[k as int + 1]) == next_raster(raster_of(oct), ratio as int));
                }
            }
            k = k + 1;
        }
        Ok(lines)
    }
}

/// The octaves of a pyramid built by `gaussian_pyramid` are the octave
/// rasters of its first image.
proof fn lemma_pyramid_rasters(p: Seq<GrayImage>, image: &GrayImage, ratio: int)
    requires
        p.len() >= 1,
        ratio >= 1,
        p[0].width == image.width && p[0].height == image.height && p[0].data@ == image.data@,
        forall|k: int| 0 <= k < p.len() - 1 ==> (p[k + 1].width as nat, p[k + 1].height as nat, p[k + 1].data@)
            == next_octave(#[trigger] p[k], ratio as nat),
    ensures
        forall|t: int| 0 <= t < p.len() ==> raster_of(&#[trigger] p[t]) == octave_raster(raster_of(image), ratio, t as nat),
{
    assert forall|t: int| 0 <= t < p.len() implies raster_of(&#[trigger] p[t]) == octave_raster(raster_of(image), ratio, t as nat) by {
        lemma_pyramid_raster_at(p, image, ratio, t as nat);
    }
}

proof fn lemma_pyramid_raster_at(p: Seq<GrayImage>, image: &GrayImage, ratio: int, t: nat)
    requires
        t < p.len(),
        ratio >= 1,
        p[0].width == image.width && p[0].height == image.height && p[0].data@ == image.data@,
        forall|k: int| 0 <= k < p.len() - 1 ==> (p[k + 1].width as nat, p[k + 1].height as nat, p[k + 1].data@)
            == next_octave(#[trigger] p[k], ratio as nat),
    ensures
        raster_of(&p[t as int]) == octave_raster(raster_of(image), ratio, t),
    decreases t,
{
    if t > 0 {
        lemma_pyramid_raster_at(p, image, ratio, (t - 1) as nat);
        assert((p[t as int].width as nat, p[t as int].height as nat, p[t as int].data@) == next_octave(p[t - 1], ratio as nat));
    }
}

impl LSDDetector {
    /// The line records of several images, each with its own mask (or
    /// none, when `masks` is empty), each exactly as `detect` finds them.
    /// Refused, as a whole, when `masks` is neither empty nor one per
    /// image, or when any image's detection is refused.
    pub fn detect_1(&self, images: &Vec<GrayImage>, scale: i32, num_octaves: i32, masks: &Vec<Vec<u8>>) -> (r: Result<Vec<Vec<KeyLine>>, DescriptorError>)
        requires
            forall|i: int| 0 <= i < images.len() ==> (#[trigger] images[i]).wf(),
        ensures
            masks.len() != 0 && masks.len() != images.len() ==> r == Err::<Vec<Vec<KeyLine>>, DescriptorError>(DescriptorError::InvalidInput),
            r matches Ok(all) ==> all.len() == images.len() && forall|i: int| #![trigger all[i]] 0 <= i < all.len()
                ==> all[i]@ == detected_lines(raster_of(&images[i]), mask_for(masks@, i), self.threshold() as int,
                self.min_pixels() as int, scale as u32, num_octaves as nat),
            (masks.len() == 0 || masks.len() == images.len()) && (forall|i: int| #![trigger images[i]] 0 <= i < images.len() ==> !detect_refused(
                &images[i], scale, num_octaves, mask_for(masks@, i))) ==> r is Ok,
            (exists|i: int| #![trigger images[i]] 0 <= i < images.len() && detect_refused(&images[i], scale, num_octaves, mask_for(masks@, i)))
                ==> r is Err,
    {
        if masks.len() != 0 && masks.len() != images.len() {
            return Err(DescriptorError::InvalidInput);
        }
        let none: Vec<u8> = Vec::new();
        let mut all: Vec<Vec<KeyLine>> = Vec::new();
        let mut i: usize = 0;
        while i < images.len()
            invariant
                forall|i: int| 0 <= i < images.len() ==> (#[trigger] images[i]).wf(),
                masks.len() == 0 || masks.len() == images.len(),
                none@ == Seq::<u8>::empty(),
                i <= images.len(),
                all.len() == i,
                forall|t: int| 0 <= t < i ==> !detect_refused(#[trigger] &images[t], scale, num_octaves, mask_for(masks@, t)),
                forall|t: int| #![trigger all[t]] 0 <= t < all.len() ==> all[t]@ == detected_lines(raster_of(&images[t]),
                    mask_for(masks@, t), self.threshold() as int, self.min_pixels() as int, scale as u32, num_octaves as nat),
            decreases images.len() - i,
        {
            let mask = if masks.len() == 0 {
                &none
            } else {
                &masks[i]
            };
            assert(mask@ == mask_for(masks@, i as int));
            match self.detect(&images[i], scale, num_octaves, mask) {
                Ok(lines) => {
                    all.push(lines);
                },
                Err(e) => {
                    return Err(e);
                },
            }
            i = i + 1;
        }
        Ok(all)
    }
}

/// The mask of image `i`: none when no masks are given.
pub open spec fn mask_for(masks: Seq<Vec<u8>>, i: int) -> Seq<u8> {
    if masks.len() == 0 { Seq::empty() } else { masks[i]@ }
}

/// The records of fewer octaves are a prefix of those of more: in
/// particular the octave-0 records of a multi-octave detection are those
/// of a one-octave detection.
pub proof fn lemma_detected_prefix(r: Raster, mask: Seq<u8>, threshold: int, min_pixels: int, ratio: u32, n1: nat, n2: nat)
    requires
        n1 <= n2,
    ensures
        detected_lines(r, mask, threshold, min_pixels, ratio, n1).len() <= detected_lines(r, mask, threshold, min_pixels, ratio, n2).len(),
        detected_lines(r, mask, threshold, min_pixels, ratio, n2).take(
            detected_lines(r, mask, threshold, min_pixels, ratio, n1).len() as int,
        ) == detected_lines(r, mask, threshold, min_pixels, ratio, n1),
    decreases n2 - n1,
{
    let a = detected_lines(r, mask, threshold, min_pixels, ratio, n1);
    if n1 < n2 {
        lemma_detected_prefix(r, mask, threshold, min_pixels, ratio, n1, (n2 - 1) as nat);
        let b = detected_lines(r, mask, threshold, min_pixels, ratio, (n2 - 1) as nat);
        assert(detected_lines(r, mask, threshold, min_pixels, ratio, n2).take(a.len() as int) =~= b.take(a.len() as int));
    } else {
        assert(a.take(a.len() as int) =~= a);
    }
}

/// Within one octave, records are numbered 0, 1, 2, ... in order of
/// detection and carry that octave.
pub proof fn lemma_octave_numbering(r: Raster, mask: Seq<u8>, threshold: int, min_pixels: int, ratio: u32, k: nat)
    ensures
        forall|i: int| 0 <= i < octave_records(r, mask, threshold, min_pixels, ratio, k).len() ==> (#[trigger] octave_records(
            r,
            mask,
            threshold,
            min_pixels,
            ratio,
            k,
        )[i]).class_id == i as usize && octave_records(r, mask, threshold, min_pixels, ratio, k)[i].octave == k as u32,
{
}

proof fn lemma_grow_all_taken(img: Raster, min_pixels: int, s: GrowState, fuel: nat)
    requires
        !s.in_group,
        s.seed >= 0,
        s.used.len() == img.width * img.height,
        forall|i: int| 0 <= i < s.used.len() ==> #[trigger] s.used[i],
    ensures
        grow_run(img, min_pixels, s, fuel).segs == s.segs,
    decreases fuel,
{
    if !(grow_done(img, s) || fuel == 0) {
        assert(s.used[s.seed]);
        lemma_grow_all_taken(img, min_pixels, grow_step(img, min_pixels, s), (fuel - 1) as nat);
    }
}

/// A mask of zeros leaves no candidate pixel, so no segment.
pub proof fn lemma_zero_mask_no_segments(img: Raster, mask: Seq<u8>, threshold: int, min_pixels: int)
    requires
        mask.len() == img.width * img.height,
        mask.len() > 0,
        forall|i: int| 0 <= i < mask.len() ==> #[trigger] mask[i] == 0,
    ensures
        segments_of(img, mask, threshold, min_pixels).len() == 0,
{
    let s = grow_start(img, mask, threshold);
    assert forall|i: int| 0 <= i < s.used.len() implies #[trigger] s.used[i] by {
        assert(mask[i] == 0);
    }
    lemma_grow_all_taken(img, min_pixels, s, grow_fuel(img));
}

/// With a mask of zeros, a one-octave detection finds no line.
pub proof fn lemma_zero_mask_no_lines(r: Raster, mask: Seq<u8>, threshold: int, min_pixels: int, ratio: u32)
    requires
        mask.len() == r.width * r.height,
        mask.len() > 0,
        forall|i: int| 0 <= i < mask.len() ==> #[trigger] mask[i] == 0,
    ensures
        detected_lines(r, mask, threshold, min_pixels, ratio, 1).len() == 0,
{
    lemma_zero_mask_no_segments(r, mask, threshold, min_pixels);
    assert(octave_raster(r, ratio as int, 0) == r);
    assert(octave_mask(mask, r, ratio as int, 0) == mask);
    assert(octave_records(r, mask, threshold, min_pixels, ratio, 0).len() == 0);
    assert(detected_lines(r, mask, threshold, min_pixels, ratio, 0).len() == 0);
    assert(detected_lines(r, mask, threshold, min_pixels, ratio, 1) == detected_lines(r, mask, threshold, min_pixels, ratio, 0)
        + octave_records(r, mask, threshold, min_pixels, ratio, 0));
}

} // verus!
