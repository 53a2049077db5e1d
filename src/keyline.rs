//! Line records: a detected segment of one octave, carried back into the
//! original image's coordinates. Coordinates are fixed point, in
//! `1 / SUBPIXEL` pixel units.

use vstd::prelude::*;
use crate::band::{is_isqrt, isqrt};
use crate::matcher::DescriptorError;
use crate::pyramid::ratio_pow;
use crate::region::{isqrt_of, lemma_isqrt_of};

verus! {

/// Fixed-point units per pixel.
pub const SUBPIXEL: u32 = 256;

/// Largest factor by which an octave's coordinates may be scaled up.
pub const MAX_SCALE: u64 = 0x8000_0000;

/// A line segment found in one octave, by its two endpoints.
#[derive(Clone, Copy, Debug, PartialEq, Eq, Structural)]
pub struct Segment {
    pub start_x: u32,
    pub start_y: u32,
    pub end_x: u32,
    pub end_y: u32,
}

/// A line record.
#[derive(Clone, Copy, Debug, PartialEq, Eq, Structural)]
pub struct KeyLine {
    /// Direction of the line, as the vector from its start to its end in
    /// the octave it was found in.
    pub direction_x: i64,
    pub direction_y: i64,
    /// Order in which the line was emitted within its octave.
    pub class_id: usize,
    /// Octave the line was found in.
    pub octave: u32,
    /// Midpoint, in the original image.
    pub pt_x: u64,
    pub pt_y: u64,
    /// Length divided by the larger side of the original image.
    pub response: u64,
    /// Area of the line's rectangle of unit width.
    pub size: u64,
    /// Endpoints in the original image.
    pub start_point_x: u64,
    pub start_point_y: u64,
    pub end_point_x: u64,
    pub end_point_y: u64,
    /// Endpoints in the octave the line was found in.
    pub s_point_in_octave_x: u32,
    pub s_point_in_octave_y: u32,
    pub e_point_in_octave_x: u32,
    pub e_point_in_octave_y: u32,
    /// Euclidean length in the original image, rounded down.
    pub line_length: u64,
    /// Pixels on the 8-connected raster line between the endpoints in the
    /// octave.
    pub num_of_pixels: u64,
}

/// Nearest pixel to a fixed-point coordinate.
pub open spec fn pixel_of(v: int) -> int {
    (v + SUBPIXEL / 2) / SUBPIXEL as int
}

pub open spec fn abs(v: int) -> int {
    if v < 0 {
        -v
    } else {
        v
    }
}

/// Pixels that an 8-connected raster walk visits from one endpoint to the
/// other, both included.
pub open spec fn raster_count(sx: int, sy: int, ex: int, ey: int) -> int {
    let dx = abs(pixel_of(ex) - pixel_of(sx));
    let dy = abs(pixel_of(ey) - pixel_of(sy));
    if dx >= dy {
        dx + 1
    } else {
        dy + 1
    }
}

impl KeyLine {
    /// A record with every field zero.
    pub fn new() -> (r: KeyLine)
        ensures
            r.num_of_pixels == 0 && r.line_length == 0 && r.class_id == 0 && r.octave == 0,
    {
        KeyLine {
            direction_x: 0,
            direction_y: 0,
            class_id: 0,
            octave: 0,
            pt_x: 0,
            pt_y: 0,
            response: 0,
            size: 0,
            start_point_x: 0,
            start_point_y: 0,
            end_point_x: 0,
            end_point_y: 0,
            s_point_in_octave_x: 0,
            s_point_in_octave_y: 0,
            e_point_in_octave_x: 0,
            e_point_in_octave_y: 0,
            line_length: 0,
            num_of_pixels: 0,
        }
    }

    /// The start point in the original image.
    pub fn get_start_point(&self) -> (r: (u64, u64))
        ensures
            r == (self.start_point_x, self.start_point_y),
    {
        (self.start_point_x, self.start_point_y)
    }

    /// The end point in the original image.
    pub fn get_end_point(&self) -> (r: (u64, u64))
        ensures
            r == (self.end_point_x, self.end_point_y),
    {
        (self.end_point_x, self.end_point_y)
    }

    /// The start point in the octave the line was found in.
    pub fn get_start_point_in_octave(&self) -> (r: (u32, u32))
        ensures
            r == (self.s_point_in_octave_x, self.s_point_in_octave_y),
    {
        (self.s_point_in_octave_x, self.s_point_in_octave_y)
    }

    /// The end point in the octave the line was found in.
    pub fn get_end_point_in_octave(&self) -> (r: (u32, u32))
        ensures
            r == (self.e_point_in_octave_x, self.e_point_in_octave_y),
    {
        (self.e_point_in_octave_x, self.e_point_in_octave_y)
    }
}

/// `ratio` to the power `octave`, or `None` past `MAX_SCALE`.
pub fn octave_scale(ratio: u32, octave: u32) -> (r: Option<u64>)
    ensures
        ratio_pow(ratio as nat, octave as nat) <= MAX_SCALE ==> r == Some(ratio_pow(ratio as nat, octave as nat) as u64),
        ratio_pow(ratio as nat, octave as nat) > MAX_SCALE ==> r is None,
{
    let mut s: u64 = 1;
    let mut k: u32 = 0;
    while k < octave
        invariant
            k <= octave,
            s == ratio_pow(ratio as nat, k as nat),
            s <= MAX_SCALE,
        decreases octave - k,
    {
        proof {
            assert(s * ratio <= MAX_SCALE * 0x1_0000_0000) by (nonlinear_arith)
                requires
                    s <= MAX_SCALE,
                    ratio <= u32::MAX,
            ;
        }
        let next = s * ratio as u64;
        proof {
            assert(ratio_pow(ratio as nat, (k + 1) as nat) == ratio * ratio_pow(ratio as nat, k as nat));
            assert(next == ratio_pow(ratio as nat, (k + 1) as nat)) by (nonlinear_arith)
                requires
                    next == s * ratio,
                    s == ratio_pow(ratio as nat, k as nat),
                    ratio_pow(ratio as nat, (k + 1) as nat) == ratio * ratio_pow(ratio as nat, k as nat),
            ;
        }
        if next > MAX_SCALE {
            proof {
                lemma_pow_grows(ratio as nat, (k + 1) as nat, octave as nat);
            }
            return None;
        }
        s = next;
        k = k + 1;
    }
    Some(s)
}

/// Powers of a ratio do not shrink, once past the bound.
pub proof fn lemma_pow_grows(ratio: nat, k: nat, n: nat)
    requires
        k <= n,
        ratio_pow(ratio, k) > MAX_SCALE,
    ensures
        ratio_pow(ratio, n) > MAX_SCALE,
    decreases n - k,
{
    if k < n {
        lemma_pow_grows(ratio, k, (n - 1) as nat);
        assert(ratio >= 1) by {
            if ratio == 0 {
                assert(ratio_pow(ratio, k) == 0) by {
                    if k > 0 {
                        assert(ratio_pow(0, k) == 0 * ratio_pow(0, (k - 1) as nat));
                    }
                }
            }
        }
        assert(ratio * ratio_pow(ratio, (n - 1) as nat) >= ratio_pow(ratio, (n - 1) as nat)) by (nonlinear_arith)
            requires
                ratio >= 1,
        ;
    }
}

/// `k` is the record of segment `seg`, found in octave `octave` of a
/// pyramid with reduction `ratio` over a `width` by `height` image, and
/// emitted `class_id`-th in its octave. Original-image coordinates are the
/// octave's coordinates times `ratio^octave`.
pub open spec fn keyline_of(seg: Segment, octave: u32, ratio: u32, class_id: usize, width: u32, height: u32, k: KeyLine) -> bool {
    let s = ratio_pow(ratio as nat, octave as nat);
    let dx = k.end_point_x - k.start_point_x;
    let dy = k.end_point_y - k.start_point_y;
    &&& k.s_point_in_octave_x == seg.start_x && k.s_point_in_octave_y == seg.start_y
    &&& k.e_point_in_octave_x == seg.end_x && k.e_point_in_octave_y == seg.end_y
    &&& k.start_point_x == seg.start_x * s && k.start_point_y == seg.start_y * s
    &&& k.end_point_x == seg.end_x * s && k.end_point_y == seg.end_y * s
    &&& k.pt_x == (k.start_point_x + k.end_point_x) / 2 && k.pt_y == (k.start_point_y + k.end_point_y) / 2
    &&& is_isqrt(k.line_length as int, dx * dx + dy * dy)
    &&& k.size == k.line_length
    &&& k.response as int == k.line_length as int / (if width >= height { width } else { height }) as int
    &&& k.num_of_pixels == raster_count(seg.start_x as int, seg.start_y as int, seg.end_x as int, seg.end_y as int)
    &&& k.direction_x == seg.end_x - seg.start_x && k.direction_y == seg.end_y - seg.start_y
    &&& k.class_id == class_id && k.octave == octave
}

/// The record of segment `seg` found in octave `octave` of a pyramid with
/// reduction `ratio` over a `width` by `height` image, emitted
/// `class_id`-th in its octave: the one record `keyline_of` admits.
pub open spec fn keyline_at(seg: Segment, octave: u32, ratio: u32, class_id: usize, width: u32, height: u32) -> KeyLine {
    let s = ratio_pow(ratio as nat, octave as nat);
    let sx = seg.start_x * s;
    let sy = seg.start_y * s;
    let ex = seg.end_x * s;
    let ey = seg.end_y * s;
    let len = isqrt_of((ex - sx) * (ex - sx) + (ey - sy) * (ey - sy));
    KeyLine {
        direction_x: (seg.end_x - seg.start_x) as i64,
        direction_y: (seg.end_y - seg.start_y) as i64,
        class_id,
        octave,
        pt_x: ((sx + ex) / 2) as u64,
        pt_y: ((sy + ey) / 2) as u64,
        response: (len / (if width >= height { width } else { height }) as int) as u64,
        size: len as u64,
        start_point_x: sx as u64,
        start_point_y: sy as u64,
        end_point_x: ex as u64,
        end_point_y: ey as u64,
        s_point_in_octave_x: seg.start_x,
        s_point_in_octave_y: seg.start_y,
        e_point_in_octave_x: seg.end_x,
        e_point_in_octave_y: seg.end_y,
        line_length: len as u64,
        num_of_pixels: raster_count(seg.start_x as int, seg.start_y as int, seg.end_x as int, seg.end_y as int) as u64,
    }
}

/// `keyline_of` admits exactly the record `keyline_at` gives.
pub proof fn lemma_keyline_at(seg: Segment, octave: u32, ratio: u32, class_id: usize, width: u32, height: u32, k: KeyLine)
    requires
        keyline_of(seg, octave, ratio, class_id, width, height, k),
    ensures
        k == keyline_at(seg, octave, ratio, class_id, width, height),
{
    let dx = k.end_point_x - k.start_point_x;
    let dy = k.end_point_y - k.start_point_y;
    lemma_isqrt_of(k.line_length as int, dx * dx + dy * dy);
}

/// The scale of an octave can be applied: it stays within `MAX_SCALE`, and
/// the image has a side to measure the response by.
pub open spec fn scale_fits(octave: u32, ratio: u32, width: u32, height: u32) -> bool {
    ratio_pow(ratio as nat, octave as nat) <= MAX_SCALE && width > 0 && height > 0
}

fn pixel_exec(v: u32) -> (r: u64)
    ensures
        r == pixel_of(v as int),
{
    (v as u64 + 128) / 256
}

fn abs_diff(a: u64, b: u64) -> (r: u64)
    ensures
        r == abs(a - b),
{
    if a >= b {
        a - b
    } else {
        b - a
    }
}

/// The record of one segment.
fn make_key_line(seg: Segment, octave: u32, s: u64, ratio: u32, class_id: usize, width: u32, height: u32) -> (k: KeyLine)
    requires
        s == ratio_pow(ratio as nat, octave as nat),
        s <= MAX_SCALE,
        width > 0,
        height > 0,
    ensures
        keyline_of(seg, octave, ratio, class_id, width, height, k),
{
    proof {
        assert(seg.start_x * s <= u32::MAX * MAX_SCALE) by (nonlinear_arith)
            requires s <= MAX_SCALE, seg.start_x <= u32::MAX;
        assert(seg.start_y * s <= u32::MAX * MAX_SCALE) by (nonlinear_arith)
            requires s <= MAX_SCALE, seg.start_y <= u32::MAX;
        assert(seg.end_x * s <= u32::MAX * MAX_SCALE) by (nonlinear_arith)
            requires s <= MAX_SCALE, seg.end_x <= u32::MAX;
        assert(seg.end_y * s <= u32::MAX * MAX_SCALE) by (nonlinear_arith)
            requires s <= MAX_SCALE, seg.end_y <= u32::MAX;
    }
    let sx = seg.start_x as u64 * s;
    let sy = seg.start_y as u64 * s;
    let ex = seg.end_x as u64 * s;
    let ey = seg.end_y as u64 * s;
    let adx = abs_diff(ex, sx) as u128;
    let ady = abs_diff(ey, sy) as u128;
    proof {
        assert(adx * adx <= 0x8000_0000_0000_0000 * 0x8000_0000_0000_0000) by (nonlinear_arith)
            requires adx <= 0x8000_0000_0000_0000;
        assert(ady * ady <= 0x8000_0000_0000_0000 * 0x8000_0000_0000_0000) by (nonlinear_arith)
            requires ady <= 0x8000_0000_0000_0000;
        assert(adx * adx == (ex - sx) * (ex - sx)) by (nonlinear_arith)
            requires adx == ex - sx || adx == sx - ex;
        assert(ady * ady == (ey - sy) * (ey - sy)) by (nonlinear_arith)
            requires ady == ey - sy || ady == sy - ey;
    }
    let len = isqrt(adx * adx + ady * ady);
    let side = if width >= height {
        width
    } else {
        height
    };
    let pdx = abs_diff(pixel_exec(seg.end_x), pixel_exec(seg.start_x));
    let pdy = abs_diff(pixel_exec(seg.end_y), pixel_exec(seg.start_y));
    let pixels = if pdx >= pdy {
        pdx + 1
    } else {
        pdy + 1
    };
    KeyLine {
        direction_x: seg.end_x as i64 - seg.start_x as i64,
        direction_y: seg.end_y as i64 - seg.start_y as i64,
        class_id,
        octave,
        pt_x: (sx + ex) / 2,
        pt_y: (sy + ey) / 2,
        response: len / side as u64,
        size: len,
        start_point_x: sx,
        start_point_y: sy,
        end_point_x: ex,
        end_point_y: ey,
        s_point_in_octave_x: seg.start_x,
        s_point_in_octave_y: seg.start_y,
        e_point_in_octave_x: seg.end_x,
        e_point_in_octave_y: seg.end_y,
        line_length: len,
        num_of_pixels: pixels,
    }
}

/// The records of the segments found in one octave, in order, each with its
/// position in that order as its class id. Refused when the octave's scale
/// exceeds `MAX_SCALE` or the image is empty.
pub fn key_lines(segments: &Vec<Segment>, octave: u32, ratio: u32, width: u32, height: u32) -> (r: Result<Vec<KeyLine>, DescriptorError>)
    ensures
        !scale_fits(octave, ratio, width, height) ==> r == Err::<Vec<KeyLine>, DescriptorError>(DescriptorError::InvalidInput),
        scale_fits(octave, ratio, width, height) ==> (r matches Ok(ks) && ks.len() == segments.len()
            && forall|i: int| 0 <= i < ks.len() ==> keyline_of(segments[i], octave, ratio, i as usize, width, height, #[trigger] ks[i])),
{
    let s = match octave_scale(ratio, octave) {
        None => {
            return Err(DescriptorError::InvalidInput);
        },
        Some(s) => s,
    };
    if width == 0 || height == 0 {
        return Err(DescriptorError::InvalidInput);
    }
    let mut ks: Vec<KeyLine> = Vec::new();
    let mut i: usize = 0;
    while i < segments.len()
        invariant
            s == ratio_pow(ratio as nat, octave as nat),
            s <= MAX_SCALE,
            width > 0,
            height > 0,
            i <= segments.len(),
            ks.len() == i,
            forall|t: int| 0 <= t < ks.len() ==> keyline_of(segments[t], octave, ratio, t as usize, width, height, #[trigger] ks[t]),
        decreases segments.len() - i,
    {
        let k = make_key_line(segments[i], octave, s, ratio, i, width, height);
        ks.push(k);
        i = i + 1;
    }
    Ok(ks)
}

} // verus!
