use line_descriptor::band::RowSums;
use line_descriptor::descriptor::BinaryDescriptor;
use line_descriptor::keyline::Segment;
use line_descriptor::matcher::DescriptorError;
use line_descriptor::pyramid::GrayImage;
use line_descriptor::region::region_rows;

fn white_row_image() -> GrayImage {
    let (w, h) = (40usize, 21usize);
    let mut data = vec![0u8; w * h];
    for x in 0..w {
        data[10 * w + x] = 255;
    }
    GrayImage::new(w, h, data).unwrap()
}

fn horizontal() -> Segment {
    Segment { start_x: 5 * 256, start_y: 10 * 256 + 128, end_x: 35 * 256, end_y: 10 * 256 + 128 }
}

#[test]
fn rows_beside_a_white_line_see_opposite_gradients() {
    let img = white_row_image();
    let rows = region_rows(&img, horizontal(), 1, 3, &vec![1, 1, 1]);
    assert_eq!(rows.len(), 3);
    assert_eq!(rows[0], RowSums { pos_perp: 31 * 255, neg_perp: 0, pos_par: 0, neg_par: 0 });
    assert_eq!(rows[1], RowSums { pos_perp: 0, neg_perp: 0, pos_par: 0, neg_par: 0 });
    assert_eq!(rows[2], RowSums { pos_perp: 0, neg_perp: 31 * 255, pos_par: 0, neg_par: 0 });
}

#[test]
fn global_weights_scale_rows() {
    let img = white_row_image();
    let rows = region_rows(&img, horizontal(), 1, 3, &vec![3, 1, 2]);
    assert_eq!(rows[0].pos_perp, 3 * 31 * 255);
    assert_eq!(rows[2].neg_perp, 2 * 31 * 255);
}

#[test]
fn rows_outside_the_image_are_zero() {
    let img = white_row_image();
    let seg = Segment { start_x: 5 * 256, start_y: 128, end_x: 35 * 256, end_y: 128 };
    let rows = region_rows(&img, seg, 1, 5, &vec![1; 5]);
    assert_eq!(rows[0], RowSums { pos_perp: 0, neg_perp: 0, pos_par: 0, neg_par: 0 });
    assert_eq!(rows[1], RowSums { pos_perp: 0, neg_perp: 0, pos_par: 0, neg_par: 0 });
}

#[test]
fn degenerate_line_gives_zero_rows() {
    let img = white_row_image();
    let seg = Segment { start_x: 2560, start_y: 2560, end_x: 2560, end_y: 2560 };
    let rows = region_rows(&img, seg, 2, 2, &vec![9; 4]);
    assert!(rows.iter().all(|r| *r == RowSums { pos_perp: 0, neg_perp: 0, pos_par: 0, neg_par: 0 }));
}

#[test]
fn lines_are_described_end_to_end() {
    let img = white_row_image();
    let b = BinaryDescriptor::create_binary_descriptor();
    let reversed = Segment { start_x: 35 * 256, start_y: 10 * 256 + 128, end_x: 5 * 256, end_y: 10 * 256 + 128 };
    let across = Segment { start_x: 20 * 256, start_y: 2 * 256, end_x: 20 * 256, end_y: 18 * 256 };
    let codes = b.compute_lines(&img, &vec![horizontal(), reversed, across], &vec![1; 63], &vec![1; 21]).unwrap();
    assert_eq!(codes.len(), 3);
    assert_eq!(codes[0].len(), 32);
    // the white row is symmetric about the line, so turning the line round
    // mirrors the bands and swaps the signs, which leaves the code as it is
    assert_eq!(codes[0], codes[1]);
    assert_ne!(codes[0], codes[2]);
    let again = b.compute_lines(&img, &vec![horizontal()], &vec![1; 63], &vec![1; 21]).unwrap();
    assert_eq!(again[0], codes[0]);
}

#[test]
fn lines_with_bad_weights_are_refused() {
    let img = white_row_image();
    let b = BinaryDescriptor::create_binary_descriptor();
    assert_eq!(b.compute_lines(&img, &vec![horizontal()], &vec![1; 62], &vec![1; 21]), Err(DescriptorError::InvalidInput));
    assert_eq!(b.compute_lines(&img, &vec![horizontal()], &vec![1; 63], &vec![1 << 17; 21]), Err(DescriptorError::InvalidInput));
}
