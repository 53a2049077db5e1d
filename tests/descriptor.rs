use line_descriptor::band::{band_descriptor, RowSums};
use line_descriptor::binarize::binarize_descriptor;
use line_descriptor::descriptor::{BinaryDescriptor, BinaryDescriptor_Params, NORM_HAMMING};
use line_descriptor::matcher::DescriptorError;
use line_descriptor::pyramid::GrayImage;

fn ones() -> Vec<u32> {
    vec![1; 21]
}

fn region(w: usize, seed: u64) -> Vec<RowSums> {
    (0..9 * w as u64)
        .map(|i| RowSums {
            pos_perp: (i * 31 + seed) % 97,
            neg_perp: (i * 17 + seed * 3) % 89,
            pos_par: (i * i + seed) % 83,
            neg_par: (i * 7 + seed * 5) % 79,
        })
        .collect()
}

#[test]
fn default_parameters() {
    let p = BinaryDescriptor_Params::new();
    assert_eq!((p.num_of_octave, p.width_of_band, p.reduction_ratio, p.ksize), (1, 7, 2, 5));
    let b = BinaryDescriptor::create_binary_descriptor();
    assert_eq!(b.get_num_of_octaves(), 1);
    assert_eq!(b.get_width_of_band(), 7);
    assert_eq!(b.get_reduction_ratio(), 2);
    assert_eq!(b.descriptor_size(), 32);
    assert_eq!(b.descriptor_type(), 0);
    assert_eq!(b.default_norm(), NORM_HAMMING);
}

#[test]
fn setters_keep_other_parameters_and_refuse_zero() {
    let mut b = BinaryDescriptor::create_binary_descriptor();
    b.set_num_of_octaves(3).unwrap();
    b.set_width_of_band(5).unwrap();
    b.set_reduction_ratio(3).unwrap();
    assert_eq!((b.get_num_of_octaves(), b.get_width_of_band(), b.get_reduction_ratio()), (3, 5, 3));
    assert_eq!(b.set_width_of_band(0), Err(DescriptorError::InvalidInput));
    assert_eq!(b.get_width_of_band(), 5);
    let bad = BinaryDescriptor_Params { num_of_octave: 0, ..BinaryDescriptor_Params::new() };
    assert!(BinaryDescriptor::new(&bad).is_err());
    assert!(BinaryDescriptor::create_binary_descriptor_1(&BinaryDescriptor_Params::new()).is_ok());
}

#[test]
fn pyramid_uses_configured_octaves_and_ratio() {
    let mut b = BinaryDescriptor::create_binary_descriptor();
    b.set_num_of_octaves(3).unwrap();
    b.set_reduction_ratio(2).unwrap();
    let img = GrayImage::new(20, 12, vec![7u8; 240]).unwrap();
    let p = b.pyramid(&img).unwrap();
    let dims: Vec<(usize, usize)> = p.iter().map(|o| (o.width, o.height)).collect();
    assert_eq!(dims, vec![(20, 12), (10, 6), (5, 3)]);
}

#[test]
fn compute_binarizes_band_descriptors() {
    let b = BinaryDescriptor::create_binary_descriptor();
    let regions = vec![region(7, 1), region(7, 2)];
    let floats = b.compute_float(&regions, &ones()).unwrap();
    assert_eq!(floats.len(), 2);
    assert_eq!(floats[0], band_descriptor(&regions[0], &ones(), 9, 7));
    assert_eq!(floats[0].len(), 72);
    let codes = b.compute(&regions, &ones()).unwrap();
    assert_eq!(codes[0], binarize_descriptor(&floats[0]).unwrap());
    assert_eq!(codes[1], binarize_descriptor(&floats[1]).unwrap());
    assert_ne!(codes[0], codes[1]);
}

#[test]
fn compute_refuses_regions_of_wrong_size() {
    let b = BinaryDescriptor::create_binary_descriptor();
    assert_eq!(b.compute(&vec![region(7, 0), region(6, 0)], &ones()), Err(DescriptorError::InvalidInput));
    let mut big = region(7, 0);
    big[3].pos_par = 1 << 40;
    assert_eq!(b.compute_float(&vec![big], &ones()), Err(DescriptorError::InvalidInput));
}

#[test]
fn degenerate_region_gives_zero_descriptor_and_code() {
    let b = BinaryDescriptor::create_binary_descriptor();
    let zero = vec![RowSums { pos_perp: 0, neg_perp: 0, pos_par: 0, neg_par: 0 }; 63];
    assert_eq!(b.compute_float(&vec![zero.clone()], &ones()).unwrap()[0], vec![0i64; 72]);
    assert_eq!(b.compute(&vec![zero], &ones()).unwrap()[0], vec![0u8; 32]);
}

#[test]
fn compute_refuses_weights_of_wrong_size() {
    let b = BinaryDescriptor::create_binary_descriptor();
    assert_eq!(b.compute(&vec![region(7, 0)], &vec![1; 20]), Err(DescriptorError::InvalidInput));
    assert_eq!(b.compute(&vec![], &vec![70000; 21]), Err(DescriptorError::InvalidInput));
    assert_eq!(b.compute(&vec![], &vec![3; 21]), Ok(vec![]));
}

#[test]
fn extractor_detects_lines_over_its_octaves() {
    let (w, h) = (60usize, 40usize);
    let mut data = vec![0u8; w * h];
    for y in 19..22 {
        for x in 10..50 {
            data[y * w + x] = 255;
        }
    }
    let img = GrayImage::new(w, h, data).unwrap();
    let mut b = BinaryDescriptor::create_binary_descriptor();
    let one = b.detect(&img, &vec![]).unwrap();
    assert!(one.iter().all(|k| k.octave == 0));
    assert_eq!(one.len(), 2);
    b.set_num_of_octaves(2).unwrap();
    let two = b.detect(&img, &vec![]).unwrap();
    assert!(two.len() >= one.len());
    assert!(two.iter().all(|k| k.octave < 2));
    assert_eq!(b.detect(&img, &vec![1; 5]), Err(DescriptorError::InvalidInput));
}

#[test]
fn extractor_detects_over_several_images() {
    let b = BinaryDescriptor::create_binary_descriptor();
    let imgs = vec![GrayImage::new(8, 8, vec![5; 64]).unwrap(), GrayImage::new(4, 4, vec![9; 16]).unwrap()];
    let all = b.detect_1(&imgs, &vec![]).unwrap();
    assert_eq!(all.len(), 2);
    assert!(all.iter().all(|v| v.is_empty()));
    assert_eq!(b.detect_1(&imgs, &vec![vec![1; 64]]), Err(DescriptorError::InvalidInput));
}

#[test]
fn compute_1_codes_each_image_in_turn() {
    let b = BinaryDescriptor::create_binary_descriptor();
    let per_image = vec![vec![region(7, 1)], vec![region(7, 2), region(7, 3)]];
    let all = b.compute_1(&per_image, &ones()).unwrap();
    assert_eq!(all.len(), 2);
    assert_eq!(all[0], b.compute(&per_image[0], &ones()).unwrap());
    assert_eq!(all[1], b.compute(&per_image[1], &ones()).unwrap());
    assert_eq!(b.compute_1(&vec![vec![region(7, 1)], vec![region(5, 1)]], &ones()), Err(DescriptorError::InvalidInput));
}

#[test]
fn compute_lines_refuses_an_empty_image() {
    let b = BinaryDescriptor::create_binary_descriptor();
    let empty = GrayImage::new(0, 5, vec![]).unwrap();
    let seg = line_descriptor::keyline::Segment { start_x: 0, start_y: 0, end_x: 256, end_y: 0 };
    assert_eq!(b.compute_lines(&empty, &vec![seg], &vec![1; 63], &vec![1; 21]), Err(DescriptorError::InvalidInput));
}
