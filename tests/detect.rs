use line_descriptor::detect::{detect_segments, LSDDetector};
use line_descriptor::keyline::key_lines;
use line_descriptor::matcher::DescriptorError;
use line_descriptor::pyramid::GrayImage;

fn white_bar() -> GrayImage {
    let (w, h) = (60usize, 40usize);
    let mut data = vec![0u8; w * h];
    for y in 19..22 {
        for x in 10..50 {
            data[y * w + x] = 255;
        }
    }
    GrayImage::new(w, h, data).unwrap()
}

#[test]
fn white_bar_gives_one_segment_per_long_edge() {
    let img = white_bar();
    let segs = detect_segments(&img, &vec![], 100 * 100, 20).unwrap();
    assert_eq!(segs.len(), 2);
    let lines = key_lines(&segs, 0, 2, 60, 40).unwrap();
    for k in &lines {
        // horizontal, and about as long as the bar's 40 pixels
        assert_eq!(k.direction_y, 0);
        let px = k.line_length as f64 / 256.0;
        assert!((px - 40.0).abs() <= 40.0 * 0.05, "length {}", px);
    }
}

#[test]
fn mask_removes_detections() {
    let img = white_bar();
    let mask = vec![0u8; 60 * 40];
    assert_eq!(detect_segments(&img, &mask, 100, 1).unwrap().len(), 0);
    let mut upper = vec![0u8; 60 * 40];
    for i in 0..60 * 20 {
        upper[i] = 1;
    }
    assert_eq!(detect_segments(&img, &upper, 100 * 100, 20).unwrap().len(), 1);
}

#[test]
fn flat_image_has_no_segments() {
    let img = GrayImage::new(8, 8, vec![77; 64]).unwrap();
    assert!(detect_segments(&img, &vec![], 1, 1).unwrap().is_empty());
}

#[test]
fn detection_is_deterministic() {
    let img = white_bar();
    assert_eq!(detect_segments(&img, &vec![], 900, 5), detect_segments(&img, &vec![], 900, 5));
}

#[test]
fn mask_of_wrong_size_is_refused() {
    let img = white_bar();
    assert_eq!(detect_segments(&img, &vec![1; 10], 1, 1), Err(DescriptorError::InvalidInput));
}

#[test]
fn detector_reports_octave_records_in_image_coordinates() {
    let img = white_bar();
    let d = LSDDetector::new_1(100 * 100, 8);
    let lines = d.detect(&img, 2, 2, &vec![]).unwrap();
    let first: Vec<_> = lines.iter().filter(|k| k.octave == 0).collect();
    assert_eq!(first.len(), 2);
    assert_eq!(first[0].class_id, 0);
    assert_eq!(first[1].class_id, 1);
    for k in &lines {
        let s = 1u64 << k.octave;
        assert_eq!(k.start_point_x, k.s_point_in_octave_x as u64 * s);
        assert_eq!(k.end_point_y, k.e_point_in_octave_y as u64 * s);
        assert_eq!(k.direction_y, 0);
    }
    assert!(lines.iter().any(|k| k.octave == 1));
}

#[test]
fn detector_refuses_bad_requests() {
    let img = white_bar();
    let d = LSDDetector::create_lsd_detector();
    assert_eq!(d.detect(&img, 2, 0, &vec![]), Err(DescriptorError::InvalidInput));
    assert_eq!(d.detect(&img, 0, 2, &vec![]), Err(DescriptorError::InvalidInput));
    assert_eq!(d.detect(&img, 2, 2, &vec![1; 3]), Err(DescriptorError::InvalidInput));
    assert_eq!(d.detect(&img, 2, 40, &vec![]), Err(DescriptorError::InvalidInput));
    let empty = GrayImage::new(0, 0, vec![]).unwrap();
    assert_eq!(d.detect(&empty, 2, 1, &vec![]), Err(DescriptorError::InvalidInput));
}

#[test]
fn detector_mask_applies_to_every_octave() {
    let img = white_bar();
    let d = LSDDetector::create_lsd_detector_1(100, 1);
    assert!(d.detect(&img, 2, 3, &vec![0u8; 60 * 40]).unwrap().is_empty());
    assert!(!LSDDetector::new().detect(&img, 2, 1, &vec![]).unwrap().is_empty());
}

#[test]
fn sloped_bar_edges_follow_its_slope() {
    let (w, h) = (80usize, 60usize);
    let mut data = vec![0u8; w * h];
    for y in 0..h {
        for x in 10..70 {
            let centre = 15.0 + (x as f64 - 10.0) * 0.5;
            if (y as f64 - centre).abs() <= 2.0 {
                data[y * w + x] = 255;
            }
        }
    }
    let img = GrayImage::new(w, h, data).unwrap();
    let segs = detect_segments(&img, &vec![], 100 * 100, 30).unwrap();
    assert!(!segs.is_empty());
    let lines = key_lines(&segs, 0, 2, 80, 60).unwrap();
    for k in &lines {
        let angle = (k.direction_y as f64).atan2(k.direction_x as f64).to_degrees();
        let slope = 0.5f64.atan().to_degrees();
        let off = ((angle - slope).rem_euclid(180.0)).min((slope - angle).rem_euclid(180.0));
        assert!(off <= 5.0, "angle {} against {}", angle, slope);
    }
}

#[test]
fn detector_handles_several_images() {
    let d = LSDDetector::new();
    let imgs = vec![white_bar(), GrayImage::new(8, 8, vec![5; 64]).unwrap()];
    let all = d.detect_1(&imgs, 2, 1, &vec![]).unwrap();
    assert_eq!(all.len(), 2);
    assert_eq!(all[0].len(), 2);
    assert!(all[1].is_empty());
    assert_eq!(d.detect_1(&imgs, 2, 1, &vec![vec![]]), Err(DescriptorError::InvalidInput));
    let masked = d.detect_1(&imgs, 2, 1, &vec![vec![0; 2400], vec![1; 64]]).unwrap();
    assert!(masked[0].is_empty());
}

#[test]
fn octave_zero_records_match_a_one_octave_detection() {
    let img = white_bar();
    let d = LSDDetector::new_1(100 * 100, 8);
    let one = d.detect(&img, 2, 1, &vec![]).unwrap();
    let three = d.detect(&img, 2, 3, &vec![]).unwrap();
    assert_eq!(&three[..one.len()], &one[..]);
    let again = d.detect(&img, 2, 3, &vec![]).unwrap();
    assert_eq!(three, again);
    let all = d.detect_1(&vec![white_bar()], 2, 3, &vec![]).unwrap();
    assert_eq!(all[0], three);
}
