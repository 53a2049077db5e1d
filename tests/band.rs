use line_descriptor::band::{accumulate_row, band_descriptor, band_rows, isqrt, RowSums};

fn row(a: u64, b: u64, c: u64, d: u64) -> RowSums {
    RowSums { pos_perp: a, neg_perp: b, pos_par: c, neg_par: d }
}

#[test]
fn edge_bands_take_two_widths_and_inner_bands_three() {
    assert_eq!(band_rows(9, 7, 0), (0, 14));
    assert_eq!(band_rows(9, 7, 1), (0, 21));
    assert_eq!(band_rows(9, 7, 4), (21, 42));
    assert_eq!(band_rows(9, 7, 8), (49, 63));
    assert_eq!(band_rows(1, 5, 0), (0, 5));
    assert_eq!(band_rows(2, 3, 1), (0, 6));
}

#[test]
fn row_sums_split_by_sign() {
    let r = accumulate_row(&vec![3, -4, 0, 5, -1], &vec![-7, 2, 2]);
    assert_eq!(r, row(8, 5, 4, 7));
    let e = accumulate_row(&vec![], &vec![i32::MIN, i32::MAX]);
    assert_eq!(e, row(0, 0, 2147483647, 2147483648));
}

#[test]
fn integer_square_roots() {
    assert_eq!(isqrt(0), 0);
    assert_eq!(isqrt(1), 1);
    assert_eq!(isqrt(15), 3);
    assert_eq!(isqrt(16), 4);
    assert_eq!(isqrt(u128::MAX), u64::MAX);
}

#[test]
fn descriptor_means_and_deviations_per_band() {
    // Two bands of width 2: every band draws on all four rows.
    let rows = vec![row(2, 0, 1, 9), row(4, 0, 1, 9), row(6, 0, 1, 9), row(8, 0, 1, 9)];
    let d = band_descriptor(&rows, &vec![1; 6], 2, 2);
    assert_eq!(d.len(), 16);
    // mean of 2,4,6,8 is 5; squared deviations 9+1+1+9 = 20, /4 = 5, root 2.
    assert_eq!(&d[0..8], &[5, 0, 1, 9, 2, 0, 0, 0]);
    assert_eq!(&d[8..16], &[5, 0, 1, 9, 2, 0, 0, 0]);
}

#[test]
fn inner_band_uses_neighbour_rows() {
    let rows: Vec<RowSums> = (0..3u64).map(|i| row(i * 10, 0, 0, 0)).collect();
    let d = band_descriptor(&rows, &vec![1; 3], 3, 1);
    assert_eq!(d.len(), 24);
    assert_eq!(d[0], 5);
    assert_eq!(d[8], 10);
    assert_eq!(d[16], 15);
    assert_eq!(d[12], 8);
}

#[test]
fn zero_rows_give_zero_descriptor() {
    let rows = vec![row(0, 0, 0, 0); 63];
    assert_eq!(band_descriptor(&rows, &vec![500; 21], 9, 7), vec![0i64; 72]);
}

#[test]
fn local_weights_follow_each_band_window() {
    let rows: Vec<RowSums> = (0..3u64).map(|i| row(i * 10, 0, 0, 0)).collect();
    let d = band_descriptor(&rows, &vec![1, 2, 1], 3, 1);
    // first band: rows 0 and 1 at window places 1 and 2
    assert_eq!(d[0], 5);
    // middle band: rows 0, 1, 2 weighted 1, 2, 1 give 0, 20, 20
    assert_eq!(d[8], 13);
    // last band: rows 1 and 2 at window places 0 and 1 give 10 and 40
    assert_eq!(d[16], 25);
    assert_eq!(d[20], 15);
}
