use line_descriptor::draw::{DrawLinesMatchesFlags, DRAW_OVER_OUTIMG, NOT_DRAW_SINGLE_LINES};
use line_descriptor::matcher::{BinaryDescriptorMatcher, DescriptorError};
use line_descriptor::mih::DMatch;
use line_descriptor::code::hamming_distance;

fn code_with_bits(n: usize) -> Vec<u8> {
    let mut c = vec![0u8; 32];
    for i in 0..n {
        c[i / 8] |= 1u8 << (i % 8);
    }
    c
}

struct Lcg(u64);

impl Lcg {
    fn next_byte(&mut self) -> u8 {
        self.0 = self.0.wrapping_mul(6364136223846793005).wrapping_add(1442695040888963407);
        (self.0 >> 33) as u8
    }

    fn code(&mut self) -> Vec<u8> {
        (0..32).map(|_| self.next_byte()).collect()
    }

    fn near(&mut self, base: &Vec<u8>, flips: usize) -> Vec<u8> {
        let mut c = base.clone();
        for _ in 0..flips {
            let bit = (self.next_byte() as usize) % 256;
            c[bit / 8] ^= 1u8 << (bit % 8);
        }
        c
    }
}

#[test]
fn knn_returns_two_nearest_in_order() {
    let query = code_with_bits(0);
    let train = vec![code_with_bits(50), code_with_bits(0), code_with_bits(10)];
    let m = BinaryDescriptorMatcher::new();
    let rows = m.knn_match(&vec![query], &train, 2, &vec![], false).unwrap();
    assert_eq!(rows.len(), 1);
    assert_eq!(
        rows[0],
        vec![
            DMatch { query_idx: 0, train_idx: 1, img_idx: 0, distance: 0 },
            DMatch { query_idx: 0, train_idx: 2, img_idx: 0, distance: 10 },
        ]
    );
}

#[test]
fn knn_on_trained_index_matches_explicit_train() {
    let query = code_with_bits(0);
    let mut m = BinaryDescriptorMatcher::new();
    m.add(&vec![vec![code_with_bits(50), code_with_bits(0), code_with_bits(10)]]).unwrap();
    m.train().unwrap();
    let rows = m.knn_match_1(&vec![query], 2, &vec![], false).unwrap();
    assert_eq!(rows[0][0].train_idx, 1);
    assert_eq!(rows[0][0].distance, 0);
    assert_eq!(rows[0][1].train_idx, 2);
    assert_eq!(rows[0][1].distance, 10);
}

#[test]
fn knn_with_k_above_dataset_returns_all() {
    let train = vec![code_with_bits(200), code_with_bits(3)];
    let m = BinaryDescriptorMatcher::new();
    let rows = m.knn_match(&vec![code_with_bits(0)], &train, 5, &vec![], false).unwrap();
    assert_eq!(rows[0].len(), 2);
    assert_eq!(rows[0][0].distance, 3);
    assert_eq!(rows[0][1].distance, 200);
}

#[test]
fn best_match_picks_nearest() {
    let train = vec![code_with_bits(40), code_with_bits(7), code_with_bits(90)];
    let m = BinaryDescriptorMatcher::new();
    let ms = m._match(&vec![code_with_bits(5), code_with_bits(100)], &train, &vec![]).unwrap();
    assert_eq!(
        ms,
        vec![
            DMatch { query_idx: 0, train_idx: 1, img_idx: 0, distance: 2 },
            DMatch { query_idx: 1, train_idx: 2, img_idx: 0, distance: 10 },
        ]
    );
}

#[test]
fn radius_match_agrees_with_brute_force() {
    let mut rng = Lcg(17);
    let mut train: Vec<Vec<u8>> = Vec::new();
    let bases: Vec<Vec<u8>> = (0..6).map(|_| rng.code()).collect();
    for i in 0..60 {
        let flips = (i % 7) * 9;
        let c = rng.near(&bases[i % 6], flips);
        train.push(c);
    }
    let queries: Vec<Vec<u8>> = (0..12).map(|i| rng.near(&bases[i % 6], i * 3)).collect();
    let m = BinaryDescriptorMatcher::new();
    for r in [0u32, 5, 20, 40, 63, 64, 100, 130, 256] {
        let rows = m.radius_match(&queries, &train, r, &vec![], false).unwrap();
        assert_eq!(rows.len(), queries.len());
        for (qi, q) in queries.iter().enumerate() {
            let mut expected: Vec<(u32, usize)> = Vec::new();
            for (ti, t) in train.iter().enumerate() {
                let d = hamming_distance(q, t);
                if d <= r {
                    expected.push((d, ti));
                }
            }
            expected.sort();
            let got: Vec<(u32, usize)> = rows[qi].iter().map(|m| (m.distance, m.train_idx)).collect();
            assert_eq!(got, expected);
        }
    }
}

#[test]
fn knn_agrees_with_brute_force() {
    let mut rng = Lcg(99);
    let train: Vec<Vec<u8>> = (0..80).map(|_| rng.code()).collect();
    let queries: Vec<Vec<u8>> = (0..10).map(|i| rng.near(&train[i * 7], i * 5)).collect();
    let m = BinaryDescriptorMatcher::new();
    let rows = m.knn_match(&queries, &train, 4, &vec![], false).unwrap();
    for (qi, q) in queries.iter().enumerate() {
        let mut all: Vec<(u32, usize)> = train.iter().enumerate().map(|(ti, t)| (hamming_distance(q, t), ti)).collect();
        all.sort();
        let got: Vec<(u32, usize)> = rows[qi].iter().map(|m| (m.distance, m.train_idx)).collect();
        assert_eq!(got, all[..4].to_vec());
    }
}

#[test]
fn trained_queries_see_only_staged_codes_and_clear_empties() {
    let mut m = BinaryDescriptorMatcher::new();
    assert_eq!(m.knn_match_1(&vec![code_with_bits(0)], 1, &vec![], false), Err(DescriptorError::EmptyDataset));
    m.add(&vec![vec![code_with_bits(4), code_with_bits(9)], vec![code_with_bits(1)]]).unwrap();
    assert_eq!(m._match_1(&vec![code_with_bits(0)], &vec![]), Err(DescriptorError::EmptyDataset));
    m.train().unwrap();
    let rows = m.radius_match_1(&vec![code_with_bits(0)], 256, &vec![], false).unwrap();
    let got: Vec<(usize, usize, u32)> = rows[0].iter().map(|m| (m.img_idx, m.train_idx, m.distance)).collect();
    assert_eq!(got, vec![(1, 0, 1), (0, 0, 4), (0, 1, 9)]);
    m.clear().unwrap();
    assert_eq!(m.radius_match_1(&vec![code_with_bits(0)], 256, &vec![], false), Err(DescriptorError::EmptyDataset));
    assert_eq!(m._match_1(&vec![code_with_bits(0)], &vec![]), Err(DescriptorError::EmptyDataset));
}

#[test]
fn train_replaces_previous_index() {
    let mut m = BinaryDescriptorMatcher::new();
    m.add(&vec![vec![code_with_bits(4)]]).unwrap();
    m.train().unwrap();
    m.add(&vec![vec![code_with_bits(30)]]).unwrap();
    let before = m._match_1(&vec![code_with_bits(0)], &vec![]).unwrap();
    assert_eq!(before[0].distance, 4);
    m.train().unwrap();
    let after = m._match_1(&vec![code_with_bits(0)], &vec![]).unwrap();
    assert_eq!(after[0].distance, 30);
}

#[test]
fn train_without_staged_codes_fails() {
    let mut m = BinaryDescriptorMatcher::new();
    assert_eq!(m.train(), Err(DescriptorError::EmptyDataset));
    m.add(&vec![vec![]]).unwrap();
    assert_eq!(m.train(), Err(DescriptorError::EmptyDataset));
}

#[test]
fn malformed_codes_and_masks_are_refused() {
    let mut m = BinaryDescriptorMatcher::new();
    assert_eq!(m.add(&vec![vec![vec![0u8; 31]]]), Err(DescriptorError::InvalidInput));
    m.add(&vec![vec![code_with_bits(2)]]).unwrap();
    m.train().unwrap();
    assert_eq!(m.knn_match_1(&vec![vec![0u8; 3]], 1, &vec![], false), Err(DescriptorError::InvalidInput));
    assert_eq!(m.knn_match_1(&vec![code_with_bits(0)], 1, &vec![vec![1], vec![1]], false), Err(DescriptorError::InvalidInput));
    assert_eq!(m.knn_match(&vec![code_with_bits(0)], &vec![vec![1u8; 5]], 1, &vec![], false), Err(DescriptorError::InvalidInput));
    assert_eq!(m.knn_match(&vec![code_with_bits(0)], &vec![], 1, &vec![], false), Err(DescriptorError::EmptyDataset));
}

#[test]
fn masks_exclude_pairs_and_compact_drops_empty_rows() {
    let train = vec![code_with_bits(1), code_with_bits(2)];
    let queries = vec![code_with_bits(0), code_with_bits(0)];
    let m = BinaryDescriptorMatcher::new();
    let rows = m.knn_match(&queries, &train, 1, &vec![1, 0], false).unwrap();
    assert_eq!(rows.len(), 2);
    assert_eq!(rows[0].len(), 1);
    assert!(rows[1].is_empty());
    let compact = m.knn_match(&queries, &train, 1, &vec![1, 0], true).unwrap();
    assert_eq!(compact.len(), 1);
    assert_eq!(compact[0][0].query_idx, 0);
    let mut t = BinaryDescriptorMatcher::new();
    t.add(&vec![vec![code_with_bits(1)], vec![code_with_bits(2)]]).unwrap();
    t.train().unwrap();
    let ms = t._match_1(&vec![code_with_bits(0)], &vec![vec![0], vec![1]]).unwrap();
    assert_eq!(ms, vec![DMatch { query_idx: 0, train_idx: 0, img_idx: 1, distance: 2 }]);
}

#[test]
fn drawing_flags_read_their_bits() {
    let f = DrawLinesMatchesFlags::new();
    assert!(!f.draws_over_output() && !f.skips_single_lines());
    let g = DrawLinesMatchesFlags { bits: DRAW_OVER_OUTIMG | NOT_DRAW_SINGLE_LINES };
    assert!(g.draws_over_output() && g.skips_single_lines());
}
