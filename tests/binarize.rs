use line_descriptor::binarize::{binarize_descriptor, binarize_descriptors};
use line_descriptor::matcher::DescriptorError;

fn ramp() -> Vec<i64> {
    (0..72).map(|i| ((i * 37) % 53) as i64 - 26).collect()
}

fn pairs() -> Vec<(usize, usize)> {
    let mut v = Vec::new();
    for i in 0..9 {
        for j in (i + 1)..9 {
            if !((i == 0 || i == 1) && (j == 7 || j == 8)) {
                v.push((i, j));
            }
        }
    }
    v
}

fn expected_bit(d: &Vec<i64>, a: usize, b: usize, bit: usize) -> bool {
    d[8 * a + bit] > d[8 * b + bit]
}

#[test]
fn first_byte_compares_bands_zero_and_one() {
    let mut d = vec![0i64; 72];
    for b in 0..8 {
        d[b] = if b % 2 == 0 { 5 } else { -5 };
    }
    let c = binarize_descriptor(&d).unwrap();
    assert_eq!(c.len(), 32);
    assert_eq!(c[0], 0b0101_0101);
}

#[test]
fn pair_table_matches_reference_layout() {
    let pairs = pairs();
    assert_eq!(pairs.len(), 32);
    let d = ramp();
    let c = binarize_descriptor(&d).unwrap();
    for (p, (a, b)) in pairs.iter().enumerate() {
        for bit in 0..8 {
            assert_eq!((c[p] >> bit) & 1 == 1, expected_bit(&d, *a, *b, bit));
        }
    }
}

#[test]
fn binarizing_twice_gives_same_code() {
    let d = ramp();
    assert_eq!(binarize_descriptor(&d).unwrap(), binarize_descriptor(&d).unwrap());
}

#[test]
fn negation_complements_distinct_comparisons() {
    let d: Vec<i64> = (0..72).map(|i| (i * i * 7919 % 1009) as i64 - 500).collect();
    let n: Vec<i64> = d.iter().map(|x| -x).collect();
    let c = binarize_descriptor(&d).unwrap();
    let cn = binarize_descriptor(&n).unwrap();
    for (p, (a, b)) in pairs().iter().enumerate() {
        for bit in 0..8 {
            let (x, y) = ((c[p] >> bit) & 1, (cn[p] >> bit) & 1);
            if d[8 * a + bit] != d[8 * b + bit] {
                assert_ne!(x, y);
            } else {
                assert_eq!((x, y), (0, 0));
            }
        }
    }
}

#[test]
fn all_equal_entries_give_zero_code_for_both_signs() {
    let d = vec![3i64; 72];
    let n = vec![-3i64; 72];
    assert_eq!(binarize_descriptor(&d).unwrap(), vec![0u8; 32]);
    assert_eq!(binarize_descriptor(&n).unwrap(), vec![0u8; 32]);
}

#[test]
fn short_descriptor_is_refused() {
    assert_eq!(binarize_descriptor(&vec![0i64; 71]), Err(DescriptorError::InvalidInput));
    assert_eq!(binarize_descriptors(&vec![ramp(), vec![1i64; 8]]), Err(DescriptorError::InvalidInput));
}

#[test]
fn batch_binarizes_each_descriptor() {
    let d = ramp();
    let z = vec![0i64; 80];
    let cs = binarize_descriptors(&vec![d.clone(), z.clone()]).unwrap();
    assert_eq!(cs, vec![binarize_descriptor(&d).unwrap(), binarize_descriptor(&z).unwrap()]);
}
