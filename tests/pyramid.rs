use line_descriptor::matcher::DescriptorError;
use line_descriptor::pyramid::{gaussian_pyramid, GrayImage};

fn image(w: usize, h: usize, f: impl Fn(usize, usize) -> u8) -> GrayImage {
    let mut data = Vec::new();
    for y in 0..h {
        for x in 0..w {
            data.push(f(x, y));
        }
    }
    GrayImage::new(w, h, data).unwrap()
}

#[test]
fn octave_sizes_divide_by_ratio_powers() {
    let img = image(37, 22, |x, y| ((x * 7 + y * 13) % 256) as u8);
    let p = gaussian_pyramid(&img, 4, 2).unwrap();
    let dims: Vec<(usize, usize)> = p.iter().map(|o| (o.width, o.height)).collect();
    assert_eq!(dims, vec![(37, 22), (18, 11), (9, 5), (4, 2)]);
    assert_eq!(p[0].data, img.data);
    let q = gaussian_pyramid(&img, 3, 3).unwrap();
    let dims3: Vec<(usize, usize)> = q.iter().map(|o| (o.width, o.height)).collect();
    assert_eq!(dims3, vec![(37, 22), (12, 7), (4, 2)]);
}

#[test]
fn flat_image_stays_flat() {
    let img = image(8, 8, |_, _| 90);
    let p = gaussian_pyramid(&img, 3, 2).unwrap();
    assert_eq!(p[1].data, vec![90u8; 16]);
    assert_eq!(p[2].data, vec![90u8; 4]);
}

#[test]
fn blur_weights_are_binomial() {
    let img = image(5, 1, |x, _| if x == 2 { 160 } else { 0 });
    let p = gaussian_pyramid(&img, 2, 1).unwrap();
    assert_eq!(p[1].width, 5);
    assert_eq!(p[1].data, vec![10, 40, 60, 40, 10]);
}

#[test]
fn decimation_keeps_every_ratio_th_sample() {
    let img = image(6, 1, |x, _| (x * 16) as u8);
    let p = gaussian_pyramid(&img, 2, 2).unwrap();
    assert_eq!(p[1].width, 3);
    assert_eq!(p[1].height, 0);
    assert!(p[1].data.is_empty());
}

#[test]
fn empty_image_or_no_octave_is_refused() {
    let empty = GrayImage::new(0, 4, vec![]).unwrap();
    assert_eq!(gaussian_pyramid(&empty, 2, 2).err(), Some(DescriptorError::InvalidInput));
    let img = image(4, 4, |_, _| 1);
    assert_eq!(gaussian_pyramid(&img, 0, 2).err(), Some(DescriptorError::InvalidInput));
    assert_eq!(GrayImage::new(3, 3, vec![0; 8]).err(), Some(DescriptorError::InvalidInput));
}
