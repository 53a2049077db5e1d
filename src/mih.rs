//! Multi-index hashing over 256-bit codes: every code is filed under each of
//! its 32 byte substrings, and a query gathers the entries whose substring
//! lies near its own before ranking them by exact Hamming distance.

use vstd::prelude::*;
use crate::code::{
    CODE_BYTES, byte_dist, hamming, is_code, byte_distance, hamming_distance, lemma_hamming_bound,
    lemma_substring_pigeonhole,
};

verus! {

/// Distance-table value of an entry that the search has not reached.
pub const UNSEEN: u32 = 257;

/// Buckets of one substring table, one per byte value.
pub const BUCKETS: usize = 256;

/// An indexed code: its bytes, its dataset (image) and its position there.
pub type EntryView = (Seq<u8>, nat, nat);

/// The entries that a set of datasets yields, dataset by dataset and in
/// order within each.
pub open spec fn flat_entries(b: Seq<Seq<Seq<u8>>>) -> Seq<EntryView>
    decreases b.len(),
{
    if b.len() == 0 {
        Seq::empty()
    } else {
        flat_entries(b.drop_last()) + Seq::new(
            b.last().len(),
            |j: int| (b.last()[j], (b.len() - 1) as nat, j as nat),
        )
    }
}

/// Every code of every dataset is 32 bytes long.
pub open spec fn all_codes(b: Seq<Seq<Seq<u8>>>) -> bool {
    forall|i: int, j: int| 0 <= i < b.len() && 0 <= j < b[i].len() ==> is_code(#[trigger] b[i][j])
}

/// Query `qi` may be matched against dataset `img`: no masks were given, or
/// that dataset's mask holds a nonzero value for the query.
pub open spec fn eligible(masks: Seq<Seq<u8>>, qi: int, img: int) -> bool {
    masks.len() == 0 || masks[img][qi] != 0
}

/// Ranking key of each entry for one query: its Hamming distance from the
/// query, or -1 where the masks exclude it.
pub open spec fn keys(entries: Seq<EntryView>, q: Seq<u8>, masks: Seq<Seq<u8>>, qi: int) -> Seq<int> {
    Seq::new(
        entries.len(),
        |i: int|
            if eligible(masks, qi, entries[i].1 as int) {
                hamming(q, entries[i].0) as int
            } else {
                -1
            },
    )
}

/// Positions below `n` whose key is `d`, in ascending order.
pub open spec fn level(ks: Seq<int>, d: int, n: nat) -> Seq<usize>
    decreases n,
{
    if n == 0 {
        Seq::empty()
    } else {
        level(ks, d, (n - 1) as nat) + if ks[n - 1] == d {
            seq![(n - 1) as usize]
        } else {
            Seq::empty()
        }
    }
}

/// Positions whose key lies in `0..=r`, by ascending key and then by
/// ascending position.
pub open spec fn ranked(ks: Seq<int>, r: int) -> Seq<usize>
    decreases r + 1,
{
    if r < 0 {
        Seq::empty()
    } else {
        ranked(ks, r - 1) + level(ks, r, ks.len())
    }
}

/// The first `k` entries of a ranking, or all of them when it has fewer.
pub open spec fn top(s: Seq<usize>, k: nat) -> Seq<usize> {
    if s.len() <= k {
        s
    } else {
        s.take(k as int)
    }
}

/// A ranking up to a smaller radius is a prefix of one up to a larger radius.
pub proof fn lemma_ranked_prefix(ks: Seq<int>, r1: int, r2: int)
    requires
        r1 <= r2,
    ensures
        ranked(ks, r1).len() <= ranked(ks, r2).len(),
        ranked(ks, r2).take(ranked(ks, r1).len() as int) == ranked(ks, r1),
    decreases r2 - r1,
{
    if r1 < r2 {
        lemma_ranked_prefix(ks, r1, r2 - 1);
        if r2 >= 0 {
            assert(ranked(ks, r2) == ranked(ks, r2 - 1) + level(ks, r2, ks.len()));
            assert(ranked(ks, r2).take(ranked(ks, r1).len() as int) =~= ranked(ks, r2 - 1).take(
                ranked(ks, r1).len() as int,
            ));
        }
    } else {
        assert(ranked(ks, r2).take(ranked(ks, r1).len() as int) =~= ranked(ks, r1));
    }
}

proof fn lemma_level_absent(ks: Seq<int>, d: int, n: nat)
    requires
        n <= ks.len(),
        forall|i: int| 0 <= i < n ==> #[trigger] ks[i] != d,
    ensures
        level(ks, d, n) == Seq::<usize>::empty(),
    decreases n,
{
    if n > 0 {
        lemma_level_absent(ks, d, (n - 1) as nat);
        assert(level(ks, d, n) =~= Seq::<usize>::empty());
    }
}

/// Past the largest key, a larger radius adds nothing to a ranking.
proof fn lemma_ranked_beyond(ks: Seq<int>, r: int, r2: int)
    requires
        forall|i: int| 0 <= i < ks.len() ==> #[trigger] ks[i] <= 256,
        r == if r2 > 256 { 256 } else { r2 },
    ensures
        ranked(ks, r2) == ranked(ks, r),
    decreases r2,
{
    if r2 > 256 {
        lemma_ranked_beyond(ks, r, r2 - 1);
        lemma_level_absent(ks, r2, ks.len());
        assert(ranked(ks, r2) =~= ranked(ks, r2 - 1));
    }
}

proof fn lemma_level_in_range(ks: Seq<int>, d: int, n: nat)
    requires
        n <= ks.len(),
    ensures
        forall|j: int| 0 <= j < level(ks, d, n).len() ==> #[trigger] level(ks, d, n)[j] < n,
    decreases n,
{
    if n > 0 {
        lemma_level_in_range(ks, d, (n - 1) as nat);
        let p = level(ks, d, (n - 1) as nat);
        assert forall|j: int| 0 <= j < level(ks, d, n).len() implies #[trigger] level(ks, d, n)[j] < n by {
            if j < p.len() {
                assert(level(ks, d, n)[j] == p[j]);
            }
        }
    }
}

/// Every position in a ranking is a position of the key sequence.
pub proof fn lemma_ranked_in_range(ks: Seq<int>, r: int)
    ensures
        forall|j: int| 0 <= j < ranked(ks, r).len() ==> #[trigger] ranked(ks, r)[j] < ks.len(),
    decreases r + 1,
{
    if r >= 0 {
        lemma_ranked_in_range(ks, r - 1);
        lemma_level_in_range(ks, r, ks.len());
        let p = ranked(ks, r - 1);
        let l = level(ks, r, ks.len());
        assert forall|j: int| 0 <= j < ranked(ks, r).len() implies #[trigger] ranked(ks, r)[j] < ks.len() by {
            if j < p.len() {
                assert(ranked(ks, r)[j] == p[j]);
            } else {
                assert(ranked(ks, r)[j] == l[j - p.len()]);
            }
        }
    }
}

proof fn lemma_level_has(ks: Seq<int>, d: int, n: nat, i: int)
    requires
        n <= ks.len(),
        0 <= i < n,
        i <= usize::MAX,
        ks[i] == d,
    ensures
        level(ks, d, n).contains(i as usize),
    decreases n,
{
    let p = level(ks, d, (n - 1) as nat);
    if i < n - 1 {
        lemma_level_has(ks, d, (n - 1) as nat, i);
        let w = choose|w: int| 0 <= w < p.len() && p[w] == i as usize;
        assert(level(ks, d, n)[w] == i as usize);
    } else {
        assert(level(ks, d, n)[p.len() as int] == i as usize);
    }
}

/// Every position whose key lies in `0..=r` appears in the ranking.
pub proof fn lemma_ranked_has(ks: Seq<int>, r: int, i: int)
    requires
        0 <= i < ks.len(),
        i <= usize::MAX,
        0 <= ks[i] <= r,
    ensures
        ranked(ks, r).contains(i as usize),
    decreases r + 1,
{
    let p = ranked(ks, r - 1);
    if ks[i] == r {
        lemma_level_has(ks, r, ks.len(), i);
        let l = level(ks, r, ks.len());
        let w = choose|w: int| 0 <= w < l.len() && l[w] == i as usize;
        assert(ranked(ks, r)[p.len() + w] == i as usize);
    } else {
        lemma_ranked_has(ks, r - 1, i);
        let w = choose|w: int| 0 <= w < p.len() && p[w] == i as usize;
        assert(ranked(ks, r)[w] == i as usize);
    }
}

/// The entries kept by `top` come from the ranking.
pub proof fn lemma_top_bound(s: Seq<usize>, k: nat, n: nat)
    requires
        forall|j: int| 0 <= j < s.len() ==> #[trigger] s[j] < n,
    ensures
        forall|j: int| 0 <= j < top(s, k).len() ==> #[trigger] top(s, k)[j] < n,
{
}

/// Within radius `r`, a key and a distance-table value say the same thing.
pub open spec fn key_agrees(key: int, dist: u32, ok: bool, r: u32) -> bool {
    &&& (0 <= key <= r ==> ok && dist as int == key)
    &&& (ok && dist <= r ==> key == dist as int)
}

/// One match: query `query_idx` against code `train_idx` of dataset
/// `img_idx`, `distance` bits apart.
#[derive(Clone, Copy, Debug, PartialEq, Eq, Structural)]
pub struct DMatch {
    pub query_idx: usize,
    pub train_idx: usize,
    pub img_idx: usize,
    pub distance: u32,
}

/// The match record of entry `id` for query `qi`.
pub open spec fn match_of(entries: Seq<EntryView>, q: Seq<u8>, qi: int, id: usize) -> DMatch {
    DMatch {
        query_idx: qi as usize,
        train_idx: entries[id as int].2 as usize,
        img_idx: entries[id as int].1 as usize,
        distance: hamming(q, entries[id as int].0) as u32,
    }
}

/// The committed index: the entries, and 32 substring tables of 256
/// buckets each, laid out flat (bucket `k * 256 + v` lists the entries whose
/// byte `k` is `v`).
pub struct MihIndex {
    codes: Vec<Vec<u8>>,
    images: Vec<usize>,
    offsets: Vec<usize>,
    tables: Vec<Vec<usize>>,
    num_images: usize,
}

proof fn lemma_flat_entries_codes(b: Seq<Seq<Seq<u8>>>, i: int)
    requires
        all_codes(b),
        0 <= i < flat_entries(b).len(),
    ensures
        is_code(flat_entries(b)[i].0),
    decreases b.len(),
{
    if b.len() > 0 {
        let p = flat_entries(b.drop_last());
        if i >= p.len() {
            assert(is_code(b[b.len() - 1][i - p.len()]));
        } else {
            assert(all_codes(b.drop_last())) by {
                assert forall|x: int, y: int|
                    0 <= x < b.drop_last().len() && 0 <= y < b.drop_last()[x].len() implies is_code(
                    #[trigger] b.drop_last()[x][y],
                ) by {
                    assert(b.drop_last()[x] == b[x]);
                }
            }
            lemma_flat_entries_codes(b.drop_last(), i);
        }
    }
}

impl View for MihIndex {
    type V = Seq<EntryView>;

    closed spec fn view(&self) -> Seq<EntryView> {
        Seq::new(
            self.codes.len() as nat,
            |i: int| (self.codes[i]@, self.images[i] as nat, self.offsets[i] as nat),
        )
    }
}

impl MihIndex {
    /// Number of datasets the index was built from.
    pub closed spec fn datasets(&self) -> nat {
        self.num_images as nat
    }

    /// Entries are consistent, and every code is filed under each of its
    /// byte substrings.
    pub closed spec fn wf(&self) -> bool {
        &&& self.codes.len() == self.images.len()
        &&& self.codes.len() == self.offsets.len()
        &&& forall|i: int| 0 <= i < self.codes.len() ==> is_code(#[trigger] self.codes[i]@)
        &&& forall|i: int| 0 <= i < self.images.len() ==> #[trigger] self.images[i] < self.num_images
        &&& self.tables.len() == CODE_BYTES * BUCKETS
        &&& forall|b: int, j: int|
            0 <= b < self.tables.len() && 0 <= j < self.tables[b].len() ==> #[trigger] self.tables[b][j]
                < self.codes.len()
        &&& forall|i: int, k: int|
            0 <= i < self.codes.len() && 0 <= k < CODE_BYTES ==> #[trigger] self.tables[k * 256
                + self.codes[i][k]]@.contains(i as usize)
    }

    proof fn lemma_view(&self)
        requires
            self.wf(),
        ensures
            self@.len() == self.codes.len(),
            forall|i: int| 0 <= i < self@.len() ==> is_code(#[trigger] self@[i].0),
            forall|i: int| 0 <= i < self@.len() ==> #[trigger] self@[i].1 < self.datasets(),
    {
        assert forall|i: int| 0 <= i < self@.len() implies is_code(#[trigger] self@[i].0) by {
            assert(is_code(self.codes[i]@));
        }
        assert forall|i: int| 0 <= i < self@.len() implies #[trigger] self@[i].1 < self.datasets() by {
            assert(self.images[i] < self.num_images);
        }
    }

    /// Indexes the codes of the given datasets.
    pub fn build(batches: &Vec<Vec<Vec<u8>>>) -> (r: MihIndex)
        requires
            all_codes(batches.deep_view()),
        ensures
            r.wf(),
            r@ == flat_entries(batches.deep_view()),
            r.datasets() == batches.len(),
    {
        let ghost bv = batches.deep_view();
        let mut codes: Vec<Vec<u8>> = Vec::new();
        let mut images: Vec<usize> = Vec::new();
        let mut offsets: Vec<usize> = Vec::new();
        let mut bi: usize = 0;
        while bi < batches.len()
            invariant
                bv == batches.deep_view(),
                all_codes(bv),
                bi <= batches.len(),
                codes.len() == images.len(),
                codes.len() == offsets.len(),
                forall|i: int| 0 <= i < images.len() ==> #[trigger] images[i] < bi,
                Seq::new(
                    codes.len() as nat,
                    |i: int| (codes[i]@, images[i] as nat, offsets[i] as nat),
                ) == flat_entries(bv.take(bi as int)),
            decreases batches.len() - bi,
        {
            let batch = &batches[bi];
            let ghost start = codes.len();
            let mut j: usize = 0;
            while j < batch.len()
                invariant
                    bv == batches.deep_view(),
                    all_codes(bv),
                    bi < batches.len(),
                    batch == batches[bi as int],
                    j <= batch.len(),
                    codes.len() == images.len(),
                    codes.len() == offsets.len(),
                    codes.len() == start + j,
                    forall|i: int| 0 <= i < images.len() ==> #[trigger] images[i] <= bi,
                    Seq::new(
                        codes.len() as nat,
                        |i: int| (codes[i]@, images[i] as nat, offsets[i] as nat),
                    ) == flat_entries(bv.take(bi as int)) + Seq::new(
                        j as nat,
                        |t: int| (bv[bi as int][t], bi as nat, t as nat),
                    ),
                decreases batch.len() - j,
            {
                let ghost before = Seq::new(
                    codes.len() as nat,
                    |i: int| (codes[i]@, images[i] as nat, offsets[i] as nat),
                );
                let c = batch[j].clone();
                assert(c@ == bv[bi as int][j as int]);
                codes.push(c);
                images.push(bi);
                offsets.push(j);
                j = j + 1;
                assert(Seq::new(
                    codes.len() as nat,
                    |i: int| (codes[i]@, images[i] as nat, offsets[i] as nat),
                ) =~= before.push((bv[bi as int][j - 1], bi as nat, (j - 1) as nat)));
                assert(Seq::new(j as nat, |t: int| (bv[bi as int][t], bi as nat, t as nat))
                    =~= Seq::new((j - 1) as nat, |t: int| (bv[bi as int][t], bi as nat, t as nat)).push(
                    (bv[bi as int][j - 1], bi as nat, (j - 1) as nat),
                ));
            }
            assert(bv.take(bi + 1).drop_last() =~= bv.take(bi as int));
            bi = bi + 1;
        }
        assert(bv.take(bi as int) =~= bv);
        proof {
            assert forall|i: int| 0 <= i < codes.len() implies is_code(#[trigger] codes[i]@) by {
                let e = flat_entries(bv)[i];
                lemma_flat_entries_codes(bv, i);
            }
        }
        let tables = Self::fill_tables(&codes);
        MihIndex { codes, images, offsets, tables, num_images: batches.len() }
    }

    /// Every reached entry holds its exact distance from `q`.
    pub closed spec fn seen_ok(&self, q: Seq<u8>, dist: Seq<u32>) -> bool {
        &&& dist.len() == self.codes.len()
        &&& forall|i: int|
            0 <= i < dist.len() ==> #[trigger] dist[i] == UNSEEN || dist[i] as nat == hamming(
                q,
                self.codes[i]@,
            )
    }

    /// Every entry within `r` bits of `q` has been reached.
    pub closed spec fn covers(&self, q: Seq<u8>, dist: Seq<u32>, r: nat) -> bool {
        forall|i: int|
            0 <= i < dist.len() && hamming(q, self.codes[i]@) <= r ==> #[trigger] dist[i] != UNSEEN
    }

    /// Reaches every entry that shares a byte substring with `q` up to `s`
    /// differing bits, through the substring tables.
    fn mark(&self, q: &Vec<u8>, s: u32, dist: &mut Vec<u32>)
        requires
            self.wf(),
            is_code(q@),
            self.seen_ok(q@, old(dist)@),
        ensures
            self.seen_ok(q@, final(dist)@),
            forall|i: int, k: int|
                0 <= i < self.codes.len() && 0 <= k < CODE_BYTES && byte_dist(q@[k], #[trigger] self.codes[i]@[k])
                    <= s ==> final(dist)[i] != UNSEEN,
    {
        let mut k: usize = 0;
        while k < CODE_BYTES
            invariant
                self.wf(),
                is_code(q@),
                self.seen_ok(q@, dist@),
                k <= CODE_BYTES,
                forall|i: int, k2: int|
                    0 <= i < self.codes.len() && 0 <= k2 < k && byte_dist(q@[k2], #[trigger] self.codes[i]@[k2])
                        <= s ==> dist[i] != UNSEEN,
            decreases CODE_BYTES - k,
        {
            let mut v: usize = 0;
            while v < BUCKETS
                invariant
                    self.wf(),
                    is_code(q@),
                    self.seen_ok(q@, dist@),
                    k < CODE_BYTES,
                    v <= BUCKETS,
                    forall|i: int, k2: int|
                        0 <= i < self.codes.len() && 0 <= k2 < k && byte_dist(q@[k2], #[trigger] self.codes[i]@[k2])
                            <= s ==> dist[i] != UNSEEN,
                    forall|i: int|
                        0 <= i < self.codes.len() && #[trigger] self.codes[i]@[k as int] < v
                            && byte_dist(q@[k as int], self.codes[i]@[k as int]) <= s ==> dist[i] != UNSEEN,
                decreases BUCKETS - v,
            {
                if byte_distance(q[k], v as u8) <= s {
                    let bucket = &self.tables[k * BUCKETS + v];
                    let mut j: usize = 0;
                    while j < bucket.len()
                        invariant
                            self.wf(),
                            is_code(q@),
                            self.seen_ok(q@, dist@),
                            k < CODE_BYTES,
                            v < BUCKETS,
                            bucket == self.tables[k * BUCKETS + v],
                            j <= bucket.len(),
                            forall|i: int, k2: int|
                                0 <= i < self.codes.len() && 0 <= k2 < k && byte_dist(q@[k2], #[trigger] self.codes[i]@[k2])
                                    <= s ==> dist[i] != UNSEEN,
                            forall|i: int|
                                0 <= i < self.codes.len() && #[trigger] self.codes[i]@[k as int] < v
                                    && byte_dist(q@[k as int], self.codes[i]@[k as int]) <= s ==> dist[i] != UNSEEN,
                            forall|j2: int| 0 <= j2 < j ==> dist[#[trigger] bucket@[j2] as int] != UNSEEN,
                        decreases bucket.len() - j,
                    {
                        let id = bucket[j];
                        assert(id < self.codes.len());
                        if dist[id] == UNSEEN {
                            assert(is_code(self.codes[id as int]@));
                            let h = hamming_distance(q, &self.codes[id]);
                            dist[id] = h;
                        }
                        j = j + 1;
                    }
                    proof {
                        assert forall|i: int|
                            0 <= i < self.codes.len() && #[trigger] self.codes[i]@[k as int] < v + 1
                                && byte_dist(q@[k as int], self.codes[i]@[k as int]) <= s implies dist[i] != UNSEEN by {
                            if self.codes[i]@[k as int] == v {
                                assert(self.tables[k * 256 + self.codes[i][k as int]]@.contains(i as usize));
                                let w = choose|w: int| 0 <= w < bucket@.len() && bucket@[w] == i as usize;
                                assert(dist[bucket@[w] as int] != UNSEEN);
                            }
                        }
                    }
                } else {
                    proof {
                        assert forall|i: int|
                            0 <= i < self.codes.len() && #[trigger] self.codes[i]@[k as int] < v + 1
                                && byte_dist(q@[k as int], self.codes[i]@[k as int]) <= s implies dist[i] != UNSEEN by {
                            if self.codes[i]@[k as int] == v {
                                assert(byte_dist(q@[k as int], v as u8) > s);
                            }
                        }
                    }
                }
                v = v + 1;
            }
            proof {
                assert forall|i: int, k2: int|
                    0 <= i < self.codes.len() && 0 <= k2 < k + 1 && byte_dist(q@[k2], #[trigger] self.codes[i]@[k2])
                        <= s implies dist[i] != UNSEEN by {
                    if k2 == k {
                        assert(self.codes[i]@[k as int] < 256);
                    }
                }
            }
            k = k + 1;
        }
    }

    /// The masks can be read for query `qi` against every dataset.
    pub open spec fn masks_fit(&self, masks: Seq<Seq<u8>>, qi: int) -> bool {
        masks.len() == 0 || (masks.len() == self.datasets() && forall|m: int|
            0 <= m < masks.len() ==> qi < #[trigger] masks[m].len())
    }

    /// Lists, in ranked order, the eligible entries within `r` bits of `q`,
    /// once the search has reached all of them.
    fn collect(&self, q: &Vec<u8>, dist: &Vec<u32>, r: u32, masks: &Vec<Vec<u8>>, qi: usize) -> (out:
        Vec<usize>)
        requires
            self.wf(),
            is_code(q@),
            self.seen_ok(q@, dist@),
            self.covers(q@, dist@, r as nat),
            r <= 256,
            qi >= 0,
            self.masks_fit(masks.deep_view(), qi as int),
        ensures
            out@ == ranked(keys(self@, q@, masks.deep_view(), qi as int), r as int),
    {
        let ghost ks = keys(self@, q@, masks.deep_view(), qi as int);
        let n = self.codes.len();
        proof {
            self.lemma_view();
            assert forall|i: int| 0 <= i < n implies #[trigger] key_agrees(ks[i], dist[i], eligible(masks.deep_view(), qi as int, self.images[i] as int), r) by {
                assert(self@[i].0 == self.codes[i]@);
                lemma_hamming_bound(q@, self.codes[i]@);
            }
        }
        let mut out: Vec<usize> = Vec::new();
        let mut d: u32 = 0;
        while d <= r
            invariant
                self.wf(),
                n == self.codes.len(),
                dist.len() == n,
                ks.len() == n,
                r <= 256,
                d <= r + 1,
                self.masks_fit(masks.deep_view(), qi as int),
                forall|i: int| 0 <= i < n ==> #[trigger] key_agrees(ks[i], dist[i], eligible(masks.deep_view(), qi as int, self.images[i] as int), r),
                out@ == ranked(ks, d - 1),
            decreases r + 1 - d,
        {
            let mut i: usize = 0;
            while i < n
                invariant
                    self.wf(),
                    n == self.codes.len(),
                    dist.len() == n,
                    ks.len() == n,
                    r <= 256,
                    d <= r,
                    i <= n,
                    self.masks_fit(masks.deep_view(), qi as int),
                    forall|i: int| 0 <= i < n ==> #[trigger] key_agrees(ks[i], dist[i], eligible(masks.deep_view(), qi as int, self.images[i] as int), r),
                    out@ == ranked(ks, d - 1) + level(ks, d as int, i as nat),
                decreases n - i,
            {
                let img = self.images[i];
                proof {
                    assert(self.images[i as int] < self.num_images);
                    assert(masks.deep_view().len() == masks.len());
                    if masks.len() != 0 {
                        assert(qi < masks.deep_view()[img as int].len());
                        assert(masks.deep_view()[img as int] == masks[img as int]@);
                    }
                }
                let ok = masks.len() == 0 || masks[img][qi] != 0;
                proof {
                    if masks.len() != 0 {
                        assert(masks.deep_view()[img as int][qi as int] == masks[img as int][qi as int]);
                    }
                    assert(ok == eligible(masks.deep_view(), qi as int, img as int));
                }
                if dist[i] == d && ok {
                    out.push(i);
                }
                proof {
                    assert(key_agrees(ks[i as int], dist[i as int], eligible(masks.deep_view(), qi as int, self.images[i as int] as int), r));
                    assert(key_agrees(ks[i as int], dist[i as int], ok, r));
                    assert(ks[i as int] == d <==> (dist[i as int] == d && ok));
                    assert(level(ks, d as int, (i + 1) as nat) == level(ks, d as int, i as nat) + if ks[i as int]
                        == d {
                        seq![i]
                    } else {
                        Seq::empty()
                    });
                    assert(out@ =~= ranked(ks, d - 1) + level(ks, d as int, (i + 1) as nat));
                }
                i = i + 1;
            }
            d = d + 1;
        }
        out
    }

    proof fn lemma_reach_covers(&self, q: Seq<u8>, dist: Seq<u32>, s: u32, r: nat)
        requires
            self.wf(),
            is_code(q),
            dist.len() == self.codes.len(),
            r <= 32 * s + 31,
            forall|i: int, k: int|
                0 <= i < self.codes.len() && 0 <= k < CODE_BYTES && byte_dist(q[k], #[trigger] self.codes[i]@[k])
                    <= s ==> dist[i] != UNSEEN,
        ensures
            self.covers(q, dist, r),
    {
        assert forall|i: int|
            0 <= i < dist.len() && hamming(q, self.codes[i]@) <= r implies #[trigger] dist[i] != UNSEEN by {
            assert(is_code(self.codes[i]@));
            lemma_substring_pigeonhole(q, self.codes[i]@, s as nat);
            let k = choose|k: int| 0 <= k < CODE_BYTES && byte_dist(#[trigger] q[k], self.codes[i]@[k]) <= s;
            assert(byte_dist(q[k], self.codes[i]@[k]) <= s);
        }
    }

    /// A distance table in which no entry has been reached yet.
    fn unseen(&self) -> (dist: Vec<u32>)
        ensures
            dist.len() == self.codes.len(),
            forall|i: int| 0 <= i < dist.len() ==> dist[i] == UNSEEN,
    {
        let mut dist: Vec<u32> = Vec::new();
        let mut i: usize = 0;
        while i < self.codes.len()
            invariant
                i <= self.codes.len(),
                dist.len() == i,
                forall|t: int| 0 <= t < dist.len() ==> dist[t] == UNSEEN,
            decreases self.codes.len() - i,
        {
            dist.push(UNSEEN);
            i = i + 1;
        }
        dist
    }

    /// The eligible entries within `max_distance` bits of `q`, by ascending
    /// distance and then by position in the index.
    pub fn radius_ids(&self, q: &Vec<u8>, max_distance: u32, masks: &Vec<Vec<u8>>, qi: usize) -> (out:
        Vec<usize>)
        requires
            self.wf(),
            is_code(q@),
            self.masks_fit(masks.deep_view(), qi as int),
        ensures
            out@ == ranked(keys(self@, q@, masks.deep_view(), qi as int), max_distance as int),
    {
        let r: u32 = if max_distance > 256 {
            256
        } else {
            max_distance
        };
        let s = r / 32;
        let mut dist = self.unseen();
        self.mark(q, s, &mut dist);
        proof {
            self.lemma_reach_covers(q@, dist@, s, r as nat);
            let ks = keys(self@, q@, masks.deep_view(), qi as int);
            self.lemma_keys_bound(q@, masks.deep_view(), qi as int);
            lemma_ranked_beyond(ks, r as int, max_distance as int);
        }
        self.collect(q, &dist, r, masks, qi)
    }

    /// The `k` eligible entries nearest to `q` (all of them when fewer), by
    /// ascending distance and then by position in the index. The substring
    /// search radius grows until the entries found so far are sure to hold
    /// the answer.
    pub fn knn_ids(&self, q: &Vec<u8>, k: usize, masks: &Vec<Vec<u8>>, qi: usize) -> (out: Vec<usize>)
        requires
            self.wf(),
            is_code(q@),
            self.masks_fit(masks.deep_view(), qi as int),
        ensures
            out@ == top(ranked(keys(self@, q@, masks.deep_view(), qi as int), 256), k as nat),
    {
        let ghost ks = keys(self@, q@, masks.deep_view(), qi as int);
        let mut dist = self.unseen();
        let mut s: u32 = 0;
        loop
            invariant
                self.wf(),
                is_code(q@),
                self.masks_fit(masks.deep_view(), qi as int),
                ks == keys(self@, q@, masks.deep_view(), qi as int),
                self.seen_ok(q@, dist@),
                s <= 8,
            decreases 8 - s,
        {
            self.mark(q, s, &mut dist);
            let r: u32 = if s == 8 {
                256
            } else {
                32 * s + 31
            };
            proof {
                self.lemma_reach_covers(q@, dist@, s, r as nat);
            }
            let mut ids = self.collect(q, &dist, r, masks, qi);
            if ids.len() >= k || s == 8 {
                proof {
                    lemma_ranked_prefix(ks, r as int, 256);
                }
                ids.truncate(k);
                proof {
                    let full = ranked(ks, 256);
                    assert(ids@ =~= top(full, k as nat));
                }
                return ids;
            }
            s = s + 1;
        }
    }

    proof fn lemma_keys_bound(&self, q: Seq<u8>, masks: Seq<Seq<u8>>, qi: int)
        ensures
            forall|i: int|
                0 <= i < keys(self@, q, masks, qi).len() ==> #[trigger] keys(self@, q, masks, qi)[i]
                    <= 256,
    {
        assert forall|i: int| 0 <= i < keys(self@, q, masks, qi).len() implies #[trigger] keys(
            self@,
            q,
            masks,
            qi,
        )[i] <= 256 by {
            lemma_hamming_bound(q, self@[i].0);
        }
    }

    /// The match records of the given entries for query `qi`.
    pub fn matches_of(&self, q: &Vec<u8>, qi: usize, ids: &Vec<usize>) -> (r: Vec<DMatch>)
        requires
            self.wf(),
            is_code(q@),
            forall|j: int| 0 <= j < ids.len() ==> #[trigger] ids[j] < self@.len(),
        ensures
            r@ == ids@.map_values(|id: usize| match_of(self@, q@, qi as int, id)),
    {
        let mut r: Vec<DMatch> = Vec::new();
        let mut j: usize = 0;
        while j < ids.len()
            invariant
                self.wf(),
                is_code(q@),
                forall|j: int| 0 <= j < ids.len() ==> #[trigger] ids[j] < self@.len(),
                j <= ids.len(),
                r@ == ids@.take(j as int).map_values(|id: usize| match_of(self@, q@, qi as int, id)),
            decreases ids.len() - j,
        {
            let id = ids[j];
            proof {
                self.lemma_view();
            }
            assert(id < self.codes.len());
            assert(is_code(self.codes[id as int]@));
            let d = hamming_distance(q, &self.codes[id]);
            let m = DMatch { query_idx: qi, train_idx: self.offsets[id], img_idx: self.images[id], distance: d };
            r.push(m);
            proof {
                assert(self@[id as int].0 == self.codes[id as int]@);
                assert(m == match_of(self@, q@, qi as int, id));
                assert(ids@.take(j + 1) =~= ids@.take(j as int).push(id));
                assert(r@ =~= ids@.take(j + 1).map_values(|id: usize| match_of(self@, q@, qi as int, id)));
            }
            j = j + 1;
        }
        assert(ids@.take(j as int) =~= ids@);
        r
    }

    /// Number of indexed codes.
    pub fn len(&self) -> (r: usize)
        requires
            self.wf(),
        ensures
            r == self@.len(),
    {
        self.codes.len()
    }

    /// Number of datasets the index was built from.
    pub fn num_datasets(&self) -> (r: usize)
        ensures
            r == self.datasets(),
    {
        self.num_images
    }

    /// Files every code under each of its 32 byte substrings.
    fn fill_tables(codes: &Vec<Vec<u8>>) -> (tables: Vec<Vec<usize>>)
        requires
            forall|i: int| 0 <= i < codes.len() ==> is_code(#[trigger] codes[i]@),
        ensures
            tables.len() == CODE_BYTES * BUCKETS,
            forall|b: int, j: int|
                0 <= b < tables.len() && 0 <= j < tables[b].len() ==> #[trigger] tables[b][j]
                    < codes.len(),
            forall|i: int, k: int|
                0 <= i < codes.len() && 0 <= k < CODE_BYTES ==> #[trigger] tables[k * 256
                    + codes[i][k]]@.contains(i as usize),
    {
        let mut tables: Vec<Vec<usize>> = Vec::new();
        let mut b: usize = 0;
        while b < CODE_BYTES * BUCKETS
            invariant
                b <= CODE_BYTES * BUCKETS,
                tables.len() == b,
                forall|t: int| 0 <= t < b ==> (#[trigger] tables[t]).len() == 0,
            decreases CODE_BYTES * BUCKETS - b,
        {
            tables.push(Vec::new());
            b = b + 1;
        }
        let n = codes.len();
        let mut i: usize = 0;
        while i < n
            invariant
                n == codes.len(),
                i <= n,
                forall|i: int| 0 <= i < codes.len() ==> is_code(#[trigger] codes[i]@),
                tables.len() == CODE_BYTES * BUCKETS,
                forall|b: int, j: int|
                    0 <= b < tables.len() && 0 <= j < tables[b].len() ==> #[trigger] tables[b][j] < n,
                forall|a: int, k: int|
                    0 <= a < i && 0 <= k < CODE_BYTES ==> #[trigger] tables[k * 256
                        + codes[a][k]]@.contains(a as usize),
            decreases n - i,
        {
            let mut k: usize = 0;
            while k < CODE_BYTES
                invariant
                    n == codes.len(),
                    i < n,
                    k <= CODE_BYTES,
                    forall|i: int| 0 <= i < codes.len() ==> is_code(#[trigger] codes[i]@),
                    tables.len() == CODE_BYTES * BUCKETS,
                    forall|b: int, j: int|
                        0 <= b < tables.len() && 0 <= j < tables[b].len() ==> #[trigger] tables[b][j]
                            < n,
                    forall|a: int, k: int|
                        0 <= a < i && 0 <= k < CODE_BYTES ==> #[trigger] tables[k * 256
                            + codes[a][k]]@.contains(a as usize),
                    forall|k2: int|
                        0 <= k2 < k ==> #[trigger] tables[k2 * 256 + codes[i as int][k2]]@.contains(
                            i,
                        ),
                decreases CODE_BYTES - k,
            {
                assert(is_code(codes[i as int]@));
                let slot = k * BUCKETS + codes[i][k] as usize;
                let ghost old_tables = tables@;
                tables[slot].push(i);
                proof {
                    assert(tables[slot as int]@[tables[slot as int]@.len() - 1] == i);
                    assert forall|b: int, j: int|
                        0 <= b < tables.len() && 0 <= j < tables[b].len() implies #[trigger] tables[b][j]
                        < n by {
                        if b != slot {
                            assert(tables[b] == old_tables[b]);
                        } else if j < old_tables[b].len() {
                            assert(tables[b][j] == old_tables[b][j]);
                        }
                    }
                    assert forall|a: int, k3: int|
                        0 <= a < i && 0 <= k3 < CODE_BYTES implies #[trigger] tables[k3 * 256
                        + codes[a][k3]]@.contains(a as usize) by {
                        let t = k3 * 256 + codes[a][k3];
                        assert(old_tables[t]@.contains(a as usize));
                        if t == slot {
                            let w = choose|w: int| 0 <= w < old_tables[t]@.len() && old_tables[t]@[w] == a as usize;
                            assert(tables[t]@[w] == a as usize);
                        }
                    }
                    assert forall|k2: int|
                        0 <= k2 <= k implies #[trigger] tables[k2 * 256 + codes[i as int][k2]]@.contains(
                        i,
                    ) by {
                        let t = k2 * 256 + codes[i as int][k2];
                        if k2 == k {
                            assert(t == slot);
                            assert(tables[t]@[tables[t]@.len() - 1] == i);
                        } else {
                            assert(old_tables[t]@.contains(i));
                            if t == slot {
                                let w = choose|w: int| 0 <= w < old_tables[t]@.len() && old_tables[t]@[w] == i;
                                assert(tables[t]@[w] == i);
                            }
                        }
                    }
                }
                k = k + 1;
            }
            i = i + 1;
        }
        tables
    }
}

} // verus!
