use line_descriptor::keyline::{key_lines, octave_scale, KeyLine, Segment};
use line_descriptor::matcher::DescriptorError;

#[test]
fn original_coordinates_scale_by_ratio_powers() {
    let segs = vec![
        Segment { start_x: 256, start_y: 512, end_x: 1024, end_y: 512 },
        Segment { start_x: 0, start_y: 0, end_x: 768, end_y: 1024 },
    ];
    let ks = key_lines(&segs, 2, 2, 100, 40).unwrap();
    assert_eq!(ks.len(), 2);
    let k = ks[0];
    assert_eq!(k.get_start_point_in_octave(), (256, 512));
    assert_eq!(k.get_start_point(), (1024, 2048));
    assert_eq!(k.get_end_point(), (4096, 2048));
    assert_eq!(k.get_end_point_in_octave(), (1024, 512));
    assert_eq!(k.class_id, 0);
    assert_eq!(k.octave, 2);
    assert_eq!(k.line_length, 3072);
    assert_eq!(k.size, 3072);
    assert_eq!(k.response, 30);
    assert_eq!((k.pt_x, k.pt_y), (2560, 2048));
    assert_eq!(k.num_of_pixels, 4);
    assert_eq!((k.direction_x, k.direction_y), (768, 0));
    let k1 = ks[1];
    assert_eq!(k1.class_id, 1);
    // a 3-4-5 triangle, four times over
    assert_eq!(k1.line_length, 5120);
    assert_eq!(k1.num_of_pixels, 5);
}

#[test]
fn octave_zero_keeps_coordinates() {
    let ks = key_lines(&vec![Segment { start_x: 10, start_y: 20, end_x: 30, end_y: 40 }], 0, 2, 8, 8).unwrap();
    assert_eq!(ks[0].get_start_point(), (10, 20));
    assert_eq!(ks[0].get_end_point(), (30, 40));
    assert_eq!(ks[0].num_of_pixels, 1);
}

#[test]
fn oversized_scale_or_empty_image_is_refused() {
    assert_eq!(octave_scale(2, 31), Some(1 << 31));
    assert_eq!(octave_scale(2, 32), None);
    assert_eq!(key_lines(&vec![], 40, 2, 10, 10), Err(DescriptorError::InvalidInput));
    assert_eq!(key_lines(&vec![], 0, 2, 0, 10), Err(DescriptorError::InvalidInput));
}

#[test]
fn empty_record_is_zero() {
    let k = KeyLine::new();
    assert_eq!(k.num_of_pixels, 0);
    assert_eq!(k.get_start_point(), (0, 0));
}
