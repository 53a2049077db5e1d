//! The line descriptor extractor: its parameters, and the steps that take
//! an image to a pyramid and the row sums of each line's support region to
//! a binary code.

use vstd::prelude::*;
use crate::band::{RowSums, band_descriptor, comp, is_band_descriptor, rows_fit, weights_fit, MAX_WEIGHT};
use crate::binarize::{binarize_descriptor, binarized, BAND_ENTRIES, REFERENCE_BANDS};
use crate::code::CODE_BYTES;
use crate::matcher::DescriptorError;
use crate::pyramid::{GrayImage, gaussian_pyramid, octave_side, next_octave};
use crate::keyline::{KeyLine, Segment};
use crate::detect::{LSDDetector, detect_refused, detected_lines, mask_for, raster_of};
use crate::region::{region_row, region_rows};

verus! {

/// Bands in every line support region.
pub const NUM_OF_BANDS: usize = 9;

/// Element type code of binary descriptors: unsigned bytes.
pub const DESCRIPTOR_TYPE_U8: i32 = 0;

/// Norm code of binary descriptors: Hamming distance.
pub const NORM_HAMMING: i32 = 6;

/// Extractor parameters.
#[allow(non_camel_case_types)]
#[derive(Clone, Copy, Debug, PartialEq, Eq, Structural)]
pub struct BinaryDescriptor_Params {
    /// Octaves in the pyramid.
    pub num_of_octave: i32,
    /// Rows in each band of a line support region.
    pub width_of_band: i32,
    /// Downsampling ratio between octaves.
    pub reduction_ratio: i32,
    /// Size of the blur kernel, kept as a setting: the pyramid always
    /// blurs with the five-tap 1-4-6-4-1 kernel and ignores it.
    pub ksize: i32,
}

impl BinaryDescriptor_Params {
    /// The default parameters: one octave, bands seven rows wide, ratio two,
    /// a five-tap kernel.
    pub fn new() -> (r: Self)
        ensures
            r.num_of_octave == 1 && r.width_of_band == 7 && r.reduction_ratio == 2 && r.ksize == 5,
    {
        BinaryDescriptor_Params { num_of_octave: 1, width_of_band: 7, reduction_ratio: 2, ksize: 5 }
    }
}

/// Extracts line band descriptors and their binary codes.
pub struct BinaryDescriptor {
    params: BinaryDescriptor_Params,
}

/// Parameters an extractor can work with: each count at least one.
pub open spec fn params_ok(p: BinaryDescriptor_Params) -> bool {
    p.num_of_octave >= 1 && p.width_of_band >= 1 && p.reduction_ratio >= 1
}

/// `c` is the binary code of the line whose support region has `rows`,
/// with bands `w` rows wide and local weights `local`.
pub open spec fn line_code(rows: Seq<RowSums>, local: Seq<u32>, w: nat, c: Seq<u8>) -> bool {
    exists|d: Seq<i64>| is_band_descriptor(rows, local, NUM_OF_BANDS as nat, w, d) && binarized(d, c)
}

/// Local weights for bands `w` rows wide: one per row of a three-band
/// window, each at most `MAX_WEIGHT`.
pub open spec fn weights_ok(local: Seq<u32>, w: nat) -> bool {
    local.len() == 3 * w && weights_fit(local)
}

/// Every region fits bands `w` rows wide, and the weights fit too.
pub open spec fn inputs_ok(regions: Seq<Vec<RowSums>>, local: Seq<u32>, w: nat) -> bool {
    &&& weights_ok(local, w)
    &&& forall|i: int| 0 <= i < regions.len() ==> region_ok(#[trigger] regions[i]@, w)
}

fn weights_ok_exec(local: &Vec<u32>, w: usize) -> (r: bool)
    ensures
        r == weights_ok(local@, w as nat),
{
    if local.len() as u128 != 3 * (w as u128) {
        return false;
    }
    let mut i: usize = 0;
    while i < local.len()
        invariant
            i <= local.len(),
            forall|t: int| 0 <= t < i ==> #[trigger] local@[t] <= MAX_WEIGHT,
        decreases local.len() - i,
    {
        if local[i] > MAX_WEIGHT {
            return false;
        }
        i = i + 1;
    }
    true
}

/// A line's support region has nine bands of `w` rows, with sums that fit
/// in 32 bits, and at most 2^32 rows.
pub open spec fn region_ok(rows: Seq<RowSums>, w: nat) -> bool {
    rows.len() == NUM_OF_BANDS * w && rows_fit(rows) && rows.len() <= 0x1_0000_0000
}

fn region_ok_exec(rows: &Vec<RowSums>, w: usize) -> (r: bool)
    ensures
        r == region_ok(rows@, w as nat),
{
    if w > 0x2000_0000 {
        return false;
    }
    rows.len() as u64 == NUM_OF_BANDS as u64 * w as u64 && rows.len() as u64 <= 0x1_0000_0000 && rows_fit_exec(rows)
}

fn rows_fit_exec(rows: &Vec<RowSums>) -> (r: bool)
    ensures
        r == rows_fit(rows@),
{
    let mut i: usize = 0;
    while i < rows.len()
        invariant
            i <= rows.len(),
            forall|t: int, c: int| 0 <= t < i && 0 <= c < 4 ==> #[trigger] comp(rows@[t], c) <= u32::MAX,
        decreases rows.len() - i,
    {
        let r = rows[i];
        if r.pos_perp > u32::MAX as u64 || r.neg_perp > u32::MAX as u64 || r.pos_par > u32::MAX as u64
            || r.neg_par > u32::MAX as u64 {
            proof {
                if r.pos_perp > u32::MAX as u64 {
                    assert(comp(rows@[i as int], 0) > u32::MAX);
                } else if r.neg_perp > u32::MAX as u64 {
                    assert(comp(rows@[i as int], 1) > u32::MAX);
                } else if r.pos_par > u32::MAX as u64 {
                    assert(comp(rows@[i as int], 2) > u32::MAX);
                } else {
                    assert(comp(rows@[i as int], 3) > u32::MAX);
                }
            }
            return false;
        }
        i = i + 1;
    }
    true
}

impl BinaryDescriptor {
    /// The extractor's parameters.
    pub closed spec fn params(&self) -> BinaryDescriptor_Params {
        self.params
    }

    /// An extractor with the given parameters; refused unless every count
    /// is at least one.
    pub fn new(parameters: &BinaryDescriptor_Params) -> (r: Result<BinaryDescriptor, DescriptorError>)
        ensures
            params_ok(*parameters) ==> (r matches Ok(b) && b.params() == *parameters),
            !params_ok(*parameters) ==> r == Err::<BinaryDescriptor, DescriptorError>(DescriptorError::InvalidInput),
    {
        if parameters.num_of_octave < 1 || parameters.width_of_band < 1 || parameters.reduction_ratio < 1 {
            return Err(DescriptorError::InvalidInput);
        }
        Ok(BinaryDescriptor { params: *parameters })
    }

    /// An extractor with the default parameters.
    pub fn create_binary_descriptor() -> (r: BinaryDescriptor)
        ensures
            r.params() == (BinaryDescriptor_Params { num_of_octave: 1, width_of_band: 7, reduction_ratio: 2, ksize: 5 }),
    {
        BinaryDescriptor { params: BinaryDescriptor_Params::new() }
    }

    /// An extractor with the given parameters, as `new` makes it.
    pub fn create_binary_descriptor_1(parameters: &BinaryDescriptor_Params) -> (r: Result<BinaryDescriptor, DescriptorError>)
        ensures
            params_ok(*parameters) ==> (r matches Ok(b) && b.params() == *parameters),
            !params_ok(*parameters) ==> r == Err::<BinaryDescriptor, DescriptorError>(DescriptorError::InvalidInput),
    {
        Self::new(parameters)
    }

    pub fn get_num_of_octaves(&self) -> (r: i32)
        ensures
            r == self.params().num_of_octave,
    {
        self.params.num_of_octave
    }

    /// Sets the number of octaves; refused below one.
    pub fn set_num_of_octaves(&mut self, octaves: i32) -> (r: Result<(), DescriptorError>)
        ensures
            octaves >= 1 ==> r is Ok && final(self).params() == (BinaryDescriptor_Params { num_of_octave: octaves, ..old(self).params() }),
            octaves < 1 ==> r == Err::<(), DescriptorError>(DescriptorError::InvalidInput) && final(self).params() == old(self).params(),
    {
        if octaves < 1 {
            return Err(DescriptorError::InvalidInput);
        }
        self.params.num_of_octave = octaves;
        Ok(())
    }

    pub fn get_width_of_band(&self) -> (r: i32)
        ensures
            r == self.params().width_of_band,
    {
        self.params.width_of_band
    }

    /// Sets the width of bands; refused below one.
    pub fn set_width_of_band(&mut self, width: i32) -> (r: Result<(), DescriptorError>)
        ensures
            width >= 1 ==> r is Ok && final(self).params() == (BinaryDescriptor_Params { width_of_band: width, ..old(self).params() }),
            width < 1 ==> r == Err::<(), DescriptorError>(DescriptorError::InvalidInput) && final(self).params() == old(self).params(),
    {
        if width < 1 {
            return Err(DescriptorError::InvalidInput);
        }
        self.params.width_of_band = width;
        Ok(())
    }

    pub fn get_reduction_ratio(&self) -> (r: i32)
        ensures
            r == self.params().reduction_ratio,
    {
        self.params.reduction_ratio
    }

    /// Sets the pyramid's reduction ratio; refused below one.
    pub fn set_reduction_ratio(&mut self, r_ratio: i32) -> (r: Result<(), DescriptorError>)
        ensures
            r_ratio >= 1 ==> r is Ok && final(self).params() == (BinaryDescriptor_Params { reduction_ratio: r_ratio, ..old(self).params() }),
            r_ratio < 1 ==> r == Err::<(), DescriptorError>(DescriptorError::InvalidInput) && final(self).params() == old(self).params(),
    {
        if r_ratio < 1 {
            return Err(DescriptorError::InvalidInput);
        }
        self.params.reduction_ratio = r_ratio;
        Ok(())
    }

    /// Bytes in a binary descriptor.
    pub fn descriptor_size(&self) -> (r: i32)
        ensures
            r == CODE_BYTES,
    {
        CODE_BYTES as i32
    }

    /// Element type of binary descriptors.
    pub fn descriptor_type(&self) -> (r: i32)
        ensures
            r == DESCRIPTOR_TYPE_U8,
    {
        DESCRIPTOR_TYPE_U8
    }

    /// Norm by which binary descriptors are compared.
    pub fn default_norm(&self) -> (r: i32)
        ensures
            r == NORM_HAMMING,
    {
        NORM_HAMMING
    }
}

impl BinaryDescriptor {
    /// The extractor's parameters are usable.
    pub open spec fn wf(&self) -> bool {
        params_ok(self.params())
    }

    /// The Gaussian pyramid of `image` with the extractor's number of
    /// octaves and reduction ratio. Refused for an empty image.
    pub fn pyramid(&self, image: &GrayImage) -> (r: Result<Vec<GrayImage>, DescriptorError>)
        requires
            self.wf(),
            image.wf(),
        ensures
            (image.width == 0 || image.height == 0) ==> r == Err::<Vec<GrayImage>, DescriptorError>(DescriptorError::InvalidInput),
            !(image.width == 0 || image.height == 0) ==> (r matches Ok(p) && p.len() == self.params().num_of_octave
                && p[0].width == image.width && p[0].height == image.height && p[0].data@ == image.data@
                && (forall|k: int| 0 <= k < p.len() ==> (#[trigger] p[k]).wf()
                    && p[k].width == octave_side(image.width as nat, self.params().reduction_ratio as nat, k as nat)
                    && p[k].height == octave_side(image.height as nat, self.params().reduction_ratio as nat, k as nat))
                && (forall|k: int| 0 <= k < p.len() - 1 ==> (p[k + 1].width as nat, p[k + 1].height as nat, p[k + 1].data@)
                    == next_octave(#[trigger] p[k], self.params().reduction_ratio as nat))),
    {
        gaussian_pyramid(image, self.params.num_of_octave as usize, self.params.reduction_ratio as usize)
    }

    /// The real-valued line band descriptors of lines, given the row sums
    /// of each line's support region and the local weights of a band's
    /// window. Refused, as a whole, when a region is not nine bands of the
    /// extractor's band width or the weights do not fit that width.
    pub fn compute_float(&self, regions: &Vec<Vec<RowSums>>, local_weights: &Vec<u32>) -> (r: Result<Vec<Vec<i64>>, DescriptorError>)
        requires
            self.wf(),
        ensures
            inputs_ok(regions@, local_weights@, self.params().width_of_band as nat) ==> (r matches Ok(ds)
                && ds.len() == regions.len() && forall|i: int| 0 <= i < ds.len() ==> is_band_descriptor(
                #[trigger] regions[i]@,
                local_weights@,
                NUM_OF_BANDS as nat,
                self.params().width_of_band as nat,
                ds[i]@,
            )),
            !inputs_ok(regions@, local_weights@, self.params().width_of_band as nat) ==> r == Err::<Vec<Vec<i64>>, DescriptorError>(
                DescriptorError::InvalidInput,
            ),
    {
        let w = self.params.width_of_band as usize;
        if !weights_ok_exec(local_weights, w) {
            return Err(DescriptorError::InvalidInput);
        }
        let mut ds: Vec<Vec<i64>> = Vec::new();
        let mut i: usize = 0;
        while i < regions.len()
            invariant
                self.wf(),
                w == self.params().width_of_band,
                weights_ok(local_weights@, w as nat),
                i <= regions.len(),
                ds.len() == i,
                forall|t: int| 0 <= t < i ==> region_ok(#[trigger] regions[t]@, w as nat),
                forall|t: int| 0 <= t < i ==> is_band_descriptor(#[trigger] regions[t]@, local_weights@, NUM_OF_BANDS as nat, w as nat, ds[t]@),
            decreases regions.len() - i,
        {
            if !region_ok_exec(&regions[i], w) {
                return Err(DescriptorError::InvalidInput);
            }
            let d = band_descriptor(&regions[i], local_weights, NUM_OF_BANDS, w);
            ds.push(d);
            i = i + 1;
        }
        Ok(ds)
    }

    /// The binary codes of lines, given the row sums of each line's support
    /// region and the local weights of a band's window: each line's band
    /// descriptor, binarized. Refused, as a whole, when a region is not nine
    /// bands of the extractor's band width or the weights do not fit that
    /// width.
    pub fn compute(&self, regions: &Vec<Vec<RowSums>>, local_weights: &Vec<u32>) -> (r: Result<Vec<Vec<u8>>, DescriptorError>)
        requires
            self.wf(),
        ensures
            inputs_ok(regions@, local_weights@, self.params().width_of_band as nat) ==> (r matches Ok(cs)
                && cs.len() == regions.len() && forall|i: int| 0 <= i < cs.len() ==> line_code(
                #[trigger] regions[i]@,
                local_weights@,
                self.params().width_of_band as nat,
                cs[i]@,
            )),
            !inputs_ok(regions@, local_weights@, self.params().width_of_band as nat) ==> r == Err::<Vec<Vec<u8>>, DescriptorError>(
                DescriptorError::InvalidInput,
            ),
    {
        let w = self.params.width_of_band as usize;
        if !weights_ok_exec(local_weights, w) {
            return Err(DescriptorError::InvalidInput);
        }
        let mut cs: Vec<Vec<u8>> = Vec::new();
        let mut i: usize = 0;
        while i < regions.len()
            invariant
                self.wf(),
                w == self.params().width_of_band,
                weights_ok(local_weights@, w as nat),
                i <= regions.len(),
                cs.len() == i,
                forall|t: int| 0 <= t < i ==> region_ok(#[trigger] regions[t]@, w as nat),
                forall|t: int| 0 <= t < i ==> line_code(#[trigger] regions[t]@, local_weights@, w as nat, cs[t]@),
            decreases regions.len() - i,
        {
            if !region_ok_exec(&regions[i], w) {
                return Err(DescriptorError::InvalidInput);
            }
            let d = band_descriptor(&regions[i], local_weights, NUM_OF_BANDS, w);
            assert(d.len() >= BAND_ENTRIES * REFERENCE_BANDS);
            let c = match binarize_descriptor(&d) {
                Ok(c) => c,
                Err(e) => {
                    return Err(e);
                },
            };
            assert(line_code(regions[i as int]@, local_weights@, w as nat, c@));
            cs.push(c);
            i = i + 1;
        }
        Ok(cs)
    }
}

/// The rows of the support region of `seg` in `img`, nine bands of `w`
/// rows, weighted row by row by `global`.
pub open spec fn line_rows(img: &GrayImage, seg: Segment, w: nat, global: Seq<u32>) -> Seq<RowSums> {
    Seq::new((NUM_OF_BANDS * w) as nat, |r: int| region_row(img, seg, (NUM_OF_BANDS * w) as int, global[r] as int, r))
}

/// The image is not empty, the weights fit bands `w` rows wide, and every
/// line's region sums fit in 32 bits.
pub open spec fn lines_ok(img: &GrayImage, segs: Seq<Segment>, w: nat, global: Seq<u32>, local: Seq<u32>) -> bool {
    &&& img.width > 0 && img.height > 0
    &&& weights_ok(local, w)
    &&& global.len() == NUM_OF_BANDS * w
    &&& weights_fit(global)
    &&& NUM_OF_BANDS * w <= 0x8000_0000
    &&& forall|i: int| 0 <= i < segs.len() ==> rows_fit(#[trigger] line_rows(img, segs[i], w, global))
}

impl BinaryDescriptor {
    /// The binary codes of line segments of `img`: each line's support
    /// region is sampled with global row weights `global`, reduced to its
    /// band descriptor with local weights `local`, and binarized. Refused,
    /// as a whole, for an empty image, when the weights do not fit the band
    /// width, or when a region's sums exceed 32 bits.
    ///
    /// The weights are fixed point and are the caller's to choose; the line
    /// band descriptor uses Gaussians: `global[r]` proportional to
    /// `exp(-d^2 / (2 sg^2))`, with `d` the distance of row `r` from the
    /// centre row and `sg = 0.5 * (9 * w - 1)`, and `local[t]` proportional
    /// to `exp(-d^2 / (2 w^2))`, with `d` the distance of place `t` of the
    /// `3 * w` window from the window's centre row.
    pub fn compute_lines(&self, img: &GrayImage, segments: &Vec<Segment>, global: &Vec<u32>, local: &Vec<u32>) -> (r: Result<Vec<Vec<u8>>, DescriptorError>)
        requires
            self.wf(),
            img.wf(),
        ensures
            lines_ok(img, segments@, self.params().width_of_band as nat, global@, local@) ==> (r matches Ok(cs)
                && cs.len() == segments.len() && forall|i: int| 0 <= i < cs.len() ==> line_code(
                line_rows(img, #[trigger] segments[i], self.params().width_of_band as nat, global@),
                local@,
                self.params().width_of_band as nat,
                cs[i]@,
            )),
            !lines_ok(img, segments@, self.params().width_of_band as nat, global@, local@) ==> r == Err::<Vec<Vec<u8>>, DescriptorError>(
                DescriptorError::InvalidInput,
            ),
    {
        if img.is_empty() {
            return Err(DescriptorError::InvalidInput);
        }
        let w = self.params.width_of_band as usize;
        if w as u64 > 0x0E38_E38E || !weights_ok_exec(local, w) || global.len() != NUM_OF_BANDS * w {
            return Err(DescriptorError::InvalidInput);
        }
        let mut i: usize = 0;
        while i < global.len()
            invariant
                i <= global.len(),
                forall|t: int| 0 <= t < i ==> #[trigger] global@[t] <= MAX_WEIGHT,
            decreases global.len() - i,
        {
            if global[i] > MAX_WEIGHT {
                return Err(DescriptorError::InvalidInput);
            }
            i = i + 1;
        }
        let mut cs: Vec<Vec<u8>> = Vec::new();
        let mut k: usize = 0;
        while k < segments.len()
            invariant
                self.wf(),
                img.wf(),
                w == self.params().width_of_band,
                w <= 0x0E38_E38E,
                weights_ok(local@, w as nat),
                global.len() == NUM_OF_BANDS * w,
                weights_fit(global@),
                k <= segments.len(),
                cs.len() == k,
                forall|t: int| 0 <= t < k ==> rows_fit(#[trigger] line_rows(img, segments[t], w as nat, global@)),
                forall|t: int| 0 <= t < k ==> line_code(line_rows(img, #[trigger] segments[t], w as nat, global@), local@, w as nat, cs[t]@),
            decreases segments.len() - k,
        {
            let rows = region_rows(img, segments[k], NUM_OF_BANDS, w, global);
            assert(rows@ =~= line_rows(img, segments[k as int], w as nat, global@));
            if !rows_fit_exec(&rows) {
                return Err(DescriptorError::InvalidInput);
            }
            let d = band_descriptor(&rows, local, NUM_OF_BANDS, w);
            let c = match binarize_descriptor(&d) {
                Ok(c) => c,
                Err(e) => {
                    return Err(e);
                },
            };
            assert(line_code(rows@, local@, w as nat, c@));
            cs.push(c);
            k = k + 1;
        }
        Ok(cs)
    }
}

impl BinaryDescriptor {
    /// The line records of `image` across the extractor's octaves, found by
    /// a detector with the default thresholds (squared gradient 1024, ten
    /// pixels); see `LSDDetector::detect`.
    pub fn detect(&self, image: &GrayImage, mask: &Vec<u8>) -> (r: Result<Vec<KeyLine>, DescriptorError>)
        requires
            self.wf(),
            image.wf(),
        ensures
            detect_refused(image, self.params().reduction_ratio, self.params().num_of_octave, mask@) ==> r == Err::<
                Vec<KeyLine>,
                DescriptorError,
            >(DescriptorError::InvalidInput),
            !detect_refused(image, self.params().reduction_ratio, self.params().num_of_octave, mask@) ==> (r matches Ok(
                lines,
            ) && lines@ == detected_lines(raster_of(image), mask@, 1024, 10, self.params().reduction_ratio as u32,
                self.params().num_of_octave as nat)),
    {
        let d = LSDDetector::new();
        d.detect(image, self.params.reduction_ratio, self.params.num_of_octave, mask)
    }

    /// The line records of several images, each with its own mask (or none,
    /// when `masks` is empty), each exactly as `detect` finds them.
    pub fn detect_1(&self, images: &Vec<GrayImage>, masks: &Vec<Vec<u8>>) -> (r: Result<Vec<Vec<KeyLine>>, DescriptorError>)
        requires
            self.wf(),
            forall|i: int| 0 <= i < images.len() ==> (#[trigger] images[i]).wf(),
        ensures
            masks.len() != 0 && masks.len() != images.len() ==> r == Err::<Vec<Vec<KeyLine>>, DescriptorError>(DescriptorError::InvalidInput),
            r matches Ok(all) ==> all.len() == images.len() && forall|i: int| #![trigger all[i]] 0 <= i < all.len()
                ==> all[i]@ == detected_lines(raster_of(&images[i]), mask_for(masks@, i), 1024, 10,
                self.params().reduction_ratio as u32, self.params().num_of_octave as nat),
            (masks.len() == 0 || masks.len() == images.len()) && (forall|i: int| #![trigger images[i]] 0 <= i < images.len() ==> !detect_refused(
                &images[i], self.params().reduction_ratio, self.params().num_of_octave, mask_for(masks@, i))) ==> r is Ok,
            (exists|i: int| #![trigger images[i]] 0 <= i < images.len() && detect_refused(&images[i], self.params().reduction_ratio,
                self.params().num_of_octave, mask_for(masks@, i))) ==> r is Err,
    {
        let d = LSDDetector::new();
        d.detect_1(images, self.params.reduction_ratio, self.params.num_of_octave, masks)
    }
}

impl BinaryDescriptor {
    /// The binary codes of the lines of several images: `compute` on each
    /// image's regions in turn. Refused, as a whole, when `compute` refuses
    /// any of them.
    pub fn compute_1(&self, regions: &Vec<Vec<Vec<RowSums>>>, local_weights: &Vec<u32>) -> (r: Result<Vec<Vec<Vec<u8>>>, DescriptorError>)
        requires
            self.wf(),
        ensures
            (forall|i: int| 0 <= i < regions.len() ==> inputs_ok(#[trigger] regions[i]@, local_weights@, self.params().width_of_band as nat))
                ==> (r matches Ok(all) && all.len() == regions.len() && (forall|i: int| 0 <= i < all.len() ==> #[trigger] all[i].len() == regions[i].len())
                && forall|i: int, j: int| 0 <= i < all.len() && 0 <= j < all[i].len()
                ==> line_code(#[trigger] regions[i][j]@, local_weights@, self.params().width_of_band as nat, all[i][j]@)),
            (exists|i: int| 0 <= i < regions.len() && !inputs_ok(#[trigger] regions[i]@, local_weights@, self.params().width_of_band as nat))
                ==> r == Err::<Vec<Vec<Vec<u8>>>, DescriptorError>(DescriptorError::InvalidInput),
    {
        let mut all: Vec<Vec<Vec<u8>>> = Vec::new();
        let mut i: usize = 0;
        while i < regions.len()
            invariant
                self.wf(),
                i <= regions.len(),
                all.len() == i,
                forall|t: int| 0 <= t < i ==> inputs_ok(#[trigger] regions[t]@, local_weights@, self.params().width_of_band as nat),
                forall|t: int| 0 <= t < all.len() ==> #[trigger] all[t].len() == regions[t].len(),
                forall|t: int, j: int| 0 <= t < all.len() && 0 <= j < all[t].len()
                    ==> line_code(#[trigger] regions[t][j]@, local_weights@, self.params().width_of_band as nat, all[t][j]@),
            decreases regions.len() - i,
        {
            match self.compute(&regions[i], local_weights) {
                Ok(cs) => {
                    all.push(cs);
                },
                Err(e) => {
                    return Err(e);
                },
            }
            i = i + 1;
        }
        Ok(all)
    }
}

} // verus!
