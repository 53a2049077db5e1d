//! The matcher: codes are staged by `add`, committed by `train` into a
//! multi-index hash, and queried by best match, k nearest or radius.

use vstd::prelude::*;
use crate::code::{hamming, is_code, lemma_hamming_bound};
use crate::mih::{
    DMatch, EntryView, MihIndex, all_codes, flat_entries, keys, match_of, ranked, top,
    lemma_top_bound, lemma_ranked_in_range, lemma_ranked_has, eligible,
};

verus! {

/// Why a detection, description or matching call was refused.
#[derive(Clone, Copy, Debug, PartialEq, Eq, Structural)]
pub enum DescriptorError {
    /// An input is malformed: an empty image, a code that is not 32 bytes
    /// long, masks that do not fit the queries or datasets, and the like.
    InvalidInput,
    /// There are no codes to train on, or no trained codes to query.
    EmptyDataset,
}

/// Every query is a 32-byte code.
pub open spec fn all_queries(queries: Seq<Seq<u8>>) -> bool {
    forall|i: int| 0 <= i < queries.len() ==> is_code(#[trigger] queries[i])
}

/// No masks, or one mask per dataset with one value per query.
pub open spec fn masks_valid(masks: Seq<Seq<u8>>, datasets: nat, nq: nat) -> bool {
    masks.len() == 0 || (masks.len() == datasets && forall|m: int|
        0 <= m < masks.len() ==> #[trigger] masks[m].len() == nq)
}

/// The k-nearest row of query `qi`: the `k` eligible entries nearest to it
/// (all when fewer), by ascending distance and then by index position.
pub open spec fn knn_row(entries: Seq<EntryView>, q: Seq<u8>, masks: Seq<Seq<u8>>, qi: int, k: nat) -> Seq<DMatch> {
    top(ranked(keys(entries, q, masks, qi), 256), k).map_values(|id: usize| match_of(entries, q, qi, id))
}

/// The radius row of query `qi`: every eligible entry within `max_distance`
/// bits of it, by ascending distance and then by index position.
pub open spec fn radius_row(entries: Seq<EntryView>, q: Seq<u8>, masks: Seq<Seq<u8>>, qi: int, max_distance: nat) -> Seq<DMatch> {
    ranked(keys(entries, q, masks, qi), max_distance as int).map_values(|id: usize| match_of(entries, q, qi, id))
}

/// Rows in query order; with `compact`, the empty ones left out.
pub open spec fn compacted(rows: Seq<Seq<DMatch>>, compact: bool) -> Seq<Seq<DMatch>>
    decreases rows.len(),
{
    if rows.len() == 0 {
        Seq::empty()
    } else {
        compacted(rows.drop_last(), compact) + if compact && rows.last().len() == 0 {
            Seq::empty()
        } else {
            seq![rows.last()]
        }
    }
}

/// The best match of each query that has one, in query order.
pub open spec fn best_matches(entries: Seq<EntryView>, queries: Seq<Seq<u8>>, masks: Seq<Seq<u8>>, n: nat) -> Seq<DMatch>
    decreases n,
{
    if n == 0 {
        Seq::empty()
    } else {
        best_matches(entries, queries, masks, (n - 1) as nat) + knn_row(entries, queries[n - 1], masks, n - 1, 1)
    }
}

/// The contents of each result row.
pub open spec fn rows_view(rows: Seq<Vec<DMatch>>) -> Seq<Seq<DMatch>> {
    rows.map_values(|r: Vec<DMatch>| r@)
}

fn knn_all(index: &MihIndex, queries: &Vec<Vec<u8>>, k: usize, masks: &Vec<Vec<u8>>, compact: bool) -> (r: Vec<Vec<DMatch>>)
    requires
        index.wf(),
        all_queries(queries.deep_view()),
        masks_valid(masks.deep_view(), index.datasets(), queries.len() as nat),
    ensures
        rows_view(r@) == compacted(
            Seq::new(queries.len() as nat, |qi: int| knn_row(index@, queries.deep_view()[qi], masks.deep_view(), qi, k as nat)),
            compact,
        ),
{
    let ghost rows = Seq::new(queries.len() as nat, |qi: int| knn_row(index@, queries.deep_view()[qi], masks.deep_view(), qi, k as nat));
    let mut out: Vec<Vec<DMatch>> = Vec::new();
    let mut qi: usize = 0;
    while qi < queries.len()
        invariant
            index.wf(),
            all_queries(queries.deep_view()),
            masks_valid(masks.deep_view(), index.datasets(), queries.len() as nat),
            rows == Seq::new(queries.len() as nat, |qi: int| knn_row(index@, queries.deep_view()[qi], masks.deep_view(), qi, k as nat)),
            qi <= queries.len(),
            rows_view(out@) == compacted(rows.take(qi as int), compact),
        decreases queries.len() - qi,
    {
        proof {
            assert(queries.deep_view()[qi as int] == queries[qi as int]@);
            assert(is_code(queries.deep_view()[qi as int]));
            assert(index.masks_fit(masks.deep_view(), qi as int));
        }
        let ids = index.knn_ids(&queries[qi], k, masks, qi);
        proof {
            lemma_ranked_in_range(keys(index@, queries[qi as int]@, masks.deep_view(), qi as int), 256);
            lemma_top_bound(ranked(keys(index@, queries[qi as int]@, masks.deep_view(), qi as int), 256), k as nat, index@.len());
        }
        let row = index.matches_of(&queries[qi], qi, &ids);
        let keep = !compact || row.len() > 0;
        if keep {
            out.push(row);
        }
        proof {
            assert(row@ == rows[qi as int]);
            assert(rows.take(qi + 1).drop_last() =~= rows.take(qi as int));
            if keep {
                assert(rows_view(out@) =~= rows_view(out@.drop_last()).push(row@));
            }
        }
        qi = qi + 1;
    }
    assert(rows.take(qi as int) =~= rows);
    out
}

fn radius_all(index: &MihIndex, queries: &Vec<Vec<u8>>, max_distance: u32, masks: &Vec<Vec<u8>>, compact: bool) -> (r: Vec<Vec<DMatch>>)
    requires
        index.wf(),
        all_queries(queries.deep_view()),
        masks_valid(masks.deep_view(), index.datasets(), queries.len() as nat),
    ensures
        rows_view(r@) == compacted(
            Seq::new(queries.len() as nat, |qi: int| radius_row(index@, queries.deep_view()[qi], masks.deep_view(), qi, max_distance as nat)),
            compact,
        ),
{
    let ghost rows = Seq::new(queries.len() as nat, |qi: int| radius_row(index@, queries.deep_view()[qi], masks.deep_view(), qi, max_distance as nat));
    let mut out: Vec<Vec<DMatch>> = Vec::new();
    let mut qi: usize = 0;
    while qi < queries.len()
        invariant
            index.wf(),
            all_queries(queries.deep_view()),
            masks_valid(masks.deep_view(), index.datasets(), queries.len() as nat),
            rows == Seq::new(queries.len() as nat, |qi: int| radius_row(index@, queries.deep_view()[qi], masks.deep_view(), qi, max_distance as nat)),
            qi <= queries.len(),
            rows_view(out@) == compacted(rows.take(qi as int), compact),
        decreases queries.len() - qi,
    {
        proof {
            assert(queries.deep_view()[qi as int] == queries[qi as int]@);
            assert(is_code(queries.deep_view()[qi as int]));
            assert(index.masks_fit(masks.deep_view(), qi as int));
        }
        let ids = index.radius_ids(&queries[qi], max_distance, masks, qi);
        proof {
            lemma_ranked_in_range(keys(index@, queries[qi as int]@, masks.deep_view(), qi as int), max_distance as int);
        }
        let row = index.matches_of(&queries[qi], qi, &ids);
        let keep = !compact || row.len() > 0;
        if keep {
            out.push(row);
        }
        proof {
            assert(row@ == rows[qi as int]);
            assert(rows.take(qi + 1).drop_last() =~= rows.take(qi as int));
            if keep {
                assert(rows_view(out@) =~= rows_view(out@.drop_last()).push(row@));
            }
        }
        qi = qi + 1;
    }
    assert(rows.take(qi as int) =~= rows);
    out
}

fn best_all(index: &MihIndex, queries: &Vec<Vec<u8>>, masks: &Vec<Vec<u8>>) -> (r: Vec<DMatch>)
    requires
        index.wf(),
        all_queries(queries.deep_view()),
        masks_valid(masks.deep_view(), index.datasets(), queries.len() as nat),
    ensures
        r@ == best_matches(index@, queries.deep_view(), masks.deep_view(), queries.len() as nat),
{
    let mut out: Vec<DMatch> = Vec::new();
    let mut qi: usize = 0;
    while qi < queries.len()
        invariant
            index.wf(),
            all_queries(queries.deep_view()),
            masks_valid(masks.deep_view(), index.datasets(), queries.len() as nat),
            qi <= queries.len(),
            out@ == best_matches(index@, queries.deep_view(), masks.deep_view(), qi as nat),
        decreases queries.len() - qi,
    {
        proof {
            assert(queries.deep_view()[qi as int] == queries[qi as int]@);
            assert(is_code(queries.deep_view()[qi as int]));
            assert(index.masks_fit(masks.deep_view(), qi as int));
        }
        let ids = index.knn_ids(&queries[qi], 1, masks, qi);
        proof {
            lemma_ranked_in_range(keys(index@, queries[qi as int]@, masks.deep_view(), qi as int), 256);
            lemma_top_bound(ranked(keys(index@, queries[qi as int]@, masks.deep_view(), qi as int), 256), 1, index@.len());
        }
        let row = index.matches_of(&queries[qi], qi, &ids);
        let ghost before = out@;
        let mut j: usize = 0;
        while j < row.len()
            invariant
                j <= row.len(),
                out@ == before + row@.take(j as int),
            decreases row.len() - j,
        {
            out.push(row[j]);
            assert(row@.take(j + 1) =~= row@.take(j as int).push(row@[j as int]));
            assert(out@ =~= before + row@.take(j + 1));
            j = j + 1;
        }
        assert(row@.take(j as int) =~= row@);
        qi = qi + 1;
    }
    out
}

/// Result of a k-nearest query over the committed entries (and their
/// number of datasets), if any.
pub open spec fn knn_outcome(
    committed: Option<(Seq<EntryView>, nat)>,
    queries: Seq<Seq<u8>>,
    masks: Seq<Seq<u8>>,
    k: nat,
    compact: bool,
) -> Result<Seq<Seq<DMatch>>, DescriptorError> {
    match committed {
        None => Err(DescriptorError::EmptyDataset),
        Some(c) => if !all_queries(queries) || !masks_valid(masks, c.1, queries.len()) {
            Err(DescriptorError::InvalidInput)
        } else {
            Ok(compacted(Seq::new(queries.len(), |qi: int| knn_row(c.0, queries[qi], masks, qi, k)), compact))
        },
    }
}

/// Result of a radius query over the committed entries, if any.
pub open spec fn radius_outcome(
    committed: Option<(Seq<EntryView>, nat)>,
    queries: Seq<Seq<u8>>,
    masks: Seq<Seq<u8>>,
    max_distance: nat,
    compact: bool,
) -> Result<Seq<Seq<DMatch>>, DescriptorError> {
    match committed {
        None => Err(DescriptorError::EmptyDataset),
        Some(c) => if !all_queries(queries) || !masks_valid(masks, c.1, queries.len()) {
            Err(DescriptorError::InvalidInput)
        } else {
            Ok(compacted(Seq::new(queries.len(), |qi: int| radius_row(c.0, queries[qi], masks, qi, max_distance)), compact))
        },
    }
}

/// Result of a best-match query over the committed entries, if any.
pub open spec fn best_outcome(
    committed: Option<(Seq<EntryView>, nat)>,
    queries: Seq<Seq<u8>>,
    masks: Seq<Seq<u8>>,
) -> Result<Seq<DMatch>, DescriptorError> {
    match committed {
        None => Err(DescriptorError::EmptyDataset),
        Some(c) => if !all_queries(queries) || !masks_valid(masks, c.1, queries.len()) {
            Err(DescriptorError::InvalidInput)
        } else {
            Ok(best_matches(c.0, queries, masks, queries.len()))
        },
    }
}

/// A dataset given with the query, as a committed index would hold it.
pub open spec fn train_set(train: Seq<Seq<u8>>) -> Option<(Seq<EntryView>, nat)> {
    if train.len() == 0 {
        None
    } else {
        Some((flat_entries(seq![train]), 1))
    }
}

/// A single mask over the queries, as a list of per-dataset masks.
pub open spec fn single_mask(mask: Seq<u8>) -> Seq<Seq<u8>> {
    if mask.len() == 0 {
        Seq::empty()
    } else {
        seq![mask]
    }
}

/// A result of rows, as sequences.
pub open spec fn rows_result(r: Result<Vec<Vec<DMatch>>, DescriptorError>) -> Result<Seq<Seq<DMatch>>, DescriptorError> {
    match r {
        Ok(v) => Ok(rows_view(v@)),
        Err(e) => Err(e),
    }
}

/// A result list, as a sequence.
pub open spec fn list_result(r: Result<Vec<DMatch>, DescriptorError>) -> Result<Seq<DMatch>, DescriptorError> {
    match r {
        Ok(v) => Ok(v@),
        Err(e) => Err(e),
    }
}

fn codes_ok(v: &Vec<Vec<u8>>) -> (r: bool)
    ensures
        r == all_queries(v.deep_view()),
{
    let mut i: usize = 0;
    while i < v.len()
        invariant
            i <= v.len(),
            forall|t: int| 0 <= t < i ==> is_code(#[trigger] v.deep_view()[t]),
        decreases v.len() - i,
    {
        assert(v.deep_view()[i as int] == v[i as int]@);
        if v[i].len() != 32 {
            return false;
        }
        i = i + 1;
    }
    true
}

fn batches_ok(b: &Vec<Vec<Vec<u8>>>) -> (r: bool)
    ensures
        r == all_codes(b.deep_view()),
{
    let mut i: usize = 0;
    while i < b.len()
        invariant
            i <= b.len(),
            forall|x: int, y: int| 0 <= x < i && 0 <= y < b.deep_view()[x].len() ==> is_code(#[trigger] b.deep_view()[x][y]),
        decreases b.len() - i,
    {
        assert(b.deep_view()[i as int] == b[i as int].deep_view());
        if !codes_ok(&b[i]) {
            assert(!all_queries(b.deep_view()[i as int]));
            return false;
        }
        i = i + 1;
    }
    true
}

fn masks_ok(masks: &Vec<Vec<u8>>, datasets: usize, nq: usize) -> (r: bool)
    ensures
        r == masks_valid(masks.deep_view(), datasets as nat, nq as nat),
{
    if masks.len() == 0 {
        return true;
    }
    if masks.len() != datasets {
        return false;
    }
    let mut m: usize = 0;
    while m < masks.len()
        invariant
            m <= masks.len(),
            forall|t: int| 0 <= t < m ==> #[trigger] masks.deep_view()[t].len() == nq,
        decreases masks.len() - m,
    {
        assert(masks.deep_view()[m as int] == masks[m as int]@);
        if masks[m].len() != nq {
            return false;
        }
        m = m + 1;
    }
    true
}

/// Finds, for query codes, their nearest codes among one or more datasets,
/// through a multi-index hash. Codes are staged by `add` and become
/// searchable once `train` commits them; queries see only committed codes.
pub struct BinaryDescriptorMatcher {
    staged: Vec<Vec<Vec<u8>>>,
    index: Option<MihIndex>,
}

impl BinaryDescriptorMatcher {
    /// The datasets staged by `add` and not yet committed.
    pub closed spec fn staged(&self) -> Seq<Seq<Seq<u8>>> {
        self.staged.deep_view()
    }

    /// The committed entries with their number of datasets, once trained.
    pub closed spec fn committed(&self) -> Option<(Seq<EntryView>, nat)> {
        match self.index {
            Some(i) => Some((i@, i.datasets())),
            None => None,
        }
    }

    /// Staged codes are 32 bytes long and the committed index is sound.
    pub closed spec fn wf(&self) -> bool {
        &&& all_codes(self.staged.deep_view())
        &&& self.index matches Some(i) ==> i.wf()
    }

    /// An empty matcher: nothing staged, nothing committed.
    pub fn new() -> (r: Self)
        ensures
            r.wf(),
            r.staged() == Seq::<Seq<Seq<u8>>>::empty(),
            r.committed() is None,
    {
        let r = BinaryDescriptorMatcher { staged: Vec::new(), index: None };
        assert(r.staged() =~= Seq::<Seq<Seq<u8>>>::empty());
        r
    }

    /// An empty matcher, as `new` makes it.
    pub fn create_binary_descriptor_matcher() -> (r: Self)
        ensures
            r.wf(),
            r.staged() == Seq::<Seq<Seq<u8>>>::empty(),
            r.committed() is None,
    {
        Self::new()
    }

    /// Stages datasets of codes, one per image, without touching the
    /// committed index. Refused unless every code is 32 bytes long.
    pub fn add(&mut self, descriptors: &Vec<Vec<Vec<u8>>>) -> (r: Result<(), DescriptorError>)
        requires
            old(self).wf(),
        ensures
            final(self).wf(),
            final(self).committed() == old(self).committed(),
            all_codes(descriptors.deep_view()) ==> r is Ok && final(self).staged() == old(self).staged()
                + descriptors.deep_view(),
            !all_codes(descriptors.deep_view()) ==> r == Err::<(), DescriptorError>(DescriptorError::InvalidInput)
                && final(self).staged() == old(self).staged(),
    {
        if !batches_ok(descriptors) {
            return Err(DescriptorError::InvalidInput);
        }
        let ghost before = self.staged.deep_view();
        let mut i: usize = 0;
        while i < descriptors.len()
            invariant
                all_codes(descriptors.deep_view()),
                i <= descriptors.len(),
                self.staged.deep_view() == before + descriptors.deep_view().take(i as int),
                all_codes(before),
                self.index == old(self).index,
            decreases descriptors.len() - i,
        {
            let b = descriptors[i].clone();
            assert(b.deep_view() == descriptors.deep_view()[i as int]);
            let ghost prev = self.staged.deep_view();
            let ghost prev_v = self.staged@;
            self.staged.push(b);
            assert(self.staged.deep_view() =~= prev.push(b.deep_view())) by {
                assert forall|j: int| 0 <= j < self.staged.len() implies #[trigger] self.staged.deep_view()[j]
                    == prev.push(b.deep_view())[j] by {
                    if j < prev.len() {
                        assert(self.staged@[j] == prev_v[j]);
                        assert(prev[j] == prev_v[j].deep_view());
                    }
                }
            }
            assert(descriptors.deep_view().take(i + 1) =~= descriptors.deep_view().take(i as int).push(
                descriptors.deep_view()[i as int],
            ));
            assert(self.staged.deep_view() =~= before + descriptors.deep_view().take(i + 1));
            i = i + 1;
        }
        assert(descriptors.deep_view().take(i as int) =~= descriptors.deep_view());
        proof {
            let s = self.staged.deep_view();
            assert forall|x: int, y: int| 0 <= x < s.len() && 0 <= y < s[x].len() implies is_code(#[trigger] s[x][y]) by {
                if x >= before.len() {
                    assert(s[x] == descriptors.deep_view()[x - before.len()]);
                }
            }
        }
        Ok(())
    }

    /// Replaces the committed index with one built from the staged datasets
    /// and empties the staging area. Refused, with nothing changed, when no
    /// code is staged.
    pub fn train(&mut self) -> (r: Result<(), DescriptorError>)
        requires
            old(self).wf(),
        ensures
            final(self).wf(),
            flat_entries(old(self).staged()).len() > 0 ==> r is Ok && final(self).committed() == Some(
                (flat_entries(old(self).staged()), old(self).staged().len()),
            ) && final(self).staged() == Seq::<Seq<Seq<u8>>>::empty(),
            flat_entries(old(self).staged()).len() == 0 ==> r == Err::<(), DescriptorError>(
                DescriptorError::EmptyDataset,
            ) && final(self).committed() == old(self).committed() && final(self).staged() == old(
                self,
            ).staged(),
    {
        let index = MihIndex::build(&self.staged);
        if index.len() == 0 {
            return Err(DescriptorError::EmptyDataset);
        }
        self.index = Some(index);
        self.staged = Vec::new();
        assert(self.staged.deep_view() =~= Seq::<Seq<Seq<u8>>>::empty());
        Ok(())
    }

    /// Discards both the staged and the committed codes.
    pub fn clear(&mut self) -> (r: Result<(), DescriptorError>)
        ensures
            final(self).wf(),
            r is Ok,
            final(self).staged() == Seq::<Seq<Seq<u8>>>::empty(),
            final(self).committed() is None,
    {
        self.staged = Vec::new();
        self.index = None;
        assert(self.staged.deep_view() =~= Seq::<Seq<Seq<u8>>>::empty());
        Ok(())
    }

    /// For each query, its best match among the committed codes that the
    /// masks leave to it (queries with none are left out).
    pub fn _match_1(&self, query_descriptors: &Vec<Vec<u8>>, masks: &Vec<Vec<u8>>) -> (r: Result<Vec<DMatch>, DescriptorError>)
        requires
            self.wf(),
        ensures
            list_result(r) == best_outcome(self.committed(), query_descriptors.deep_view(), masks.deep_view()),
    {
        match &self.index {
            None => Err(DescriptorError::EmptyDataset),
            Some(index) => {
                if !codes_ok(query_descriptors) || !masks_ok(masks, index.num_datasets(), query_descriptors.len()) {
                    return Err(DescriptorError::InvalidInput);
                }
                Ok(best_all(index, query_descriptors, masks))
            },
        }
    }

    /// For each query, its `k` nearest committed codes that the masks leave
    /// to it, nearest first; with `compact_result`, queries with none are
    /// left out.
    pub fn knn_match_1(&self, query_descriptors: &Vec<Vec<u8>>, k: usize, masks: &Vec<Vec<u8>>, compact_result: bool) -> (r: Result<Vec<Vec<DMatch>>, DescriptorError>)
        requires
            self.wf(),
        ensures
            rows_result(r) == knn_outcome(self.committed(), query_descriptors.deep_view(), masks.deep_view(), k as nat, compact_result),
    {
        match &self.index {
            None => Err(DescriptorError::EmptyDataset),
            Some(index) => {
                if !codes_ok(query_descriptors) || !masks_ok(masks, index.num_datasets(), query_descriptors.len()) {
                    return Err(DescriptorError::InvalidInput);
                }
                Ok(knn_all(index, query_descriptors, k, masks, compact_result))
            },
        }
    }

    /// For each query, every committed code within `max_distance` bits that
    /// the masks leave to it, nearest first; with `compact_result`, queries
    /// with none are left out.
    pub fn radius_match_1(&self, query_descriptors: &Vec<Vec<u8>>, max_distance: u32, masks: &Vec<Vec<u8>>, compact_result: bool) -> (r: Result<Vec<Vec<DMatch>>, DescriptorError>)
        requires
            self.wf(),
        ensures
            rows_result(r) == radius_outcome(self.committed(), query_descriptors.deep_view(), masks.deep_view(), max_distance as nat, compact_result),
    {
        match &self.index {
            None => Err(DescriptorError::EmptyDataset),
            Some(index) => {
                if !codes_ok(query_descriptors) || !masks_ok(masks, index.num_datasets(), query_descriptors.len()) {
                    return Err(DescriptorError::InvalidInput);
                }
                Ok(radius_all(index, query_descriptors, max_distance, masks, compact_result))
            },
        }
    }
    /// For each query, its best match in `train_descriptors` if `mask` (empty,
    /// or one value per query) leaves it one.
    pub fn _match(&self, query_descriptors: &Vec<Vec<u8>>, train_descriptors: &Vec<Vec<u8>>, mask: &Vec<u8>) -> (r: Result<Vec<DMatch>, DescriptorError>)
        ensures
            !all_queries(train_descriptors.deep_view()) ==> r == Err::<Vec<DMatch>, DescriptorError>(DescriptorError::InvalidInput),
            all_queries(train_descriptors.deep_view()) ==> list_result(r) == best_outcome(train_set(train_descriptors.deep_view()), query_descriptors.deep_view(), single_mask(mask@)),
    {
        match given_index(train_descriptors, mask) {
            Err(e) => Err(e),
            Ok((index, masks)) => {
                if train_descriptors.len() == 0 {
                    return Err(DescriptorError::EmptyDataset);
                }
                if !codes_ok(query_descriptors) || !masks_ok(&masks, index.num_datasets(), query_descriptors.len()) {
                    return Err(DescriptorError::InvalidInput);
                }
                Ok(best_all(&index, query_descriptors, &masks))
            },
        }
    }

    /// For each query, its `k` nearest codes in `train_descriptors` that
    /// `mask` leaves to it, nearest first; with `compact_result`, queries
    /// with none are left out.
    pub fn knn_match(&self, query_descriptors: &Vec<Vec<u8>>, train_descriptors: &Vec<Vec<u8>>, k: usize, mask: &Vec<u8>, compact_result: bool) -> (r: Result<Vec<Vec<DMatch>>, DescriptorError>)
        ensures
            !all_queries(train_descriptors.deep_view()) ==> r == Err::<Vec<Vec<DMatch>>, DescriptorError>(DescriptorError::InvalidInput),
            all_queries(train_descriptors.deep_view()) ==> rows_result(r) == knn_outcome(train_set(train_descriptors.deep_view()), query_descriptors.deep_view(), single_mask(mask@), k as nat, compact_result),
    {
        match given_index(train_descriptors, mask) {
            Err(e) => Err(e),
            Ok((index, masks)) => {
                if train_descriptors.len() == 0 {
                    return Err(DescriptorError::EmptyDataset);
                }
                if !codes_ok(query_descriptors) || !masks_ok(&masks, index.num_datasets(), query_descriptors.len()) {
                    return Err(DescriptorError::InvalidInput);
                }
                Ok(knn_all(&index, query_descriptors, k, &masks, compact_result))
            },
        }
    }

    /// For each query, every code of `train_descriptors` within
    /// `max_distance` bits that `mask` leaves to it, nearest first; with
    /// `compact_result`, queries with none are left out.
    pub fn radius_match(&self, query_descriptors: &Vec<Vec<u8>>, train_descriptors: &Vec<Vec<u8>>, max_distance: u32, mask: &Vec<u8>, compact_result: bool) -> (r: Result<Vec<Vec<DMatch>>, DescriptorError>)
        ensures
            !all_queries(train_descriptors.deep_view()) ==> r == Err::<Vec<Vec<DMatch>>, DescriptorError>(DescriptorError::InvalidInput),
            all_queries(train_descriptors.deep_view()) ==> rows_result(r) == radius_outcome(train_set(train_descriptors.deep_view()), query_descriptors.deep_view(), single_mask(mask@), max_distance as nat, compact_result),
    {
        match given_index(train_descriptors, mask) {
            Err(e) => Err(e),
            Ok((index, masks)) => {
                if train_descriptors.len() == 0 {
                    return Err(DescriptorError::EmptyDataset);
                }
                if !codes_ok(query_descriptors) || !masks_ok(&masks, index.num_datasets(), query_descriptors.len()) {
                    return Err(DescriptorError::InvalidInput);
                }
                Ok(radius_all(&index, query_descriptors, max_distance, &masks, compact_result))
            },
        }
    }
}

/// Indexes a dataset given with a query, and turns its mask into a list of
/// per-dataset masks.
fn given_index(train: &Vec<Vec<u8>>, mask: &Vec<u8>) -> (r: Result<(MihIndex, Vec<Vec<u8>>), DescriptorError>)
    ensures
        !all_queries(train.deep_view()) ==> r == Err::<(MihIndex, Vec<Vec<u8>>), DescriptorError>(DescriptorError::InvalidInput),
        all_queries(train.deep_view()) ==> (r matches Ok(p) && p.0.wf() && p.0@ == flat_entries(seq![train.deep_view()])
            && p.0.datasets() == 1 && p.1.deep_view() == single_mask(mask@)),
{
    if !codes_ok(train) {
        return Err(DescriptorError::InvalidInput);
    }
    let mut batches: Vec<Vec<Vec<u8>>> = Vec::new();
    batches.push(train.clone());
    assert(batches.deep_view() =~= seq![train.deep_view()]);
    assert(all_codes(batches.deep_view()));
    let index = MihIndex::build(&batches);
    let mut masks: Vec<Vec<u8>> = Vec::new();
    if mask.len() > 0 {
        let c = mask.clone();
        assert(c.deep_view() =~= mask@);
        masks.push(c);
        assert(masks.deep_view()[0] == c.deep_view());
    }
    assert(masks.deep_view() =~= single_mask(mask@));
    assert(seq![train.deep_view()].drop_last() =~= Seq::<Seq<Seq<u8>>>::empty());
    Ok((index, masks))
}

/// Radius queries miss nothing: an entry that the masks leave to query
/// `qi` and that lies within `max_distance` bits of it appears in the
/// query's radius row, however the index split it into substrings.
pub proof fn lemma_radius_recall(
    entries: Seq<EntryView>,
    q: Seq<u8>,
    masks: Seq<Seq<u8>>,
    qi: int,
    max_distance: nat,
    id: int,
)
    requires
        0 <= id < entries.len() <= usize::MAX,
        eligible(masks, qi, entries[id].1 as int),
        hamming(q, entries[id].0) <= max_distance,
    ensures
        radius_row(entries, q, masks, qi, max_distance).contains(match_of(entries, q, qi, id as usize)),
{
    let ks = keys(entries, q, masks, qi);
    lemma_ranked_has(ks, max_distance as int, id);
    let ids = ranked(ks, max_distance as int);
    let w = choose|w: int| 0 <= w < ids.len() && ids[w] == id as usize;
    assert(radius_row(entries, q, masks, qi, max_distance)[w] == match_of(entries, q, qi, id as usize));
}

/// Match `m` names a code of the given datasets, for a query that exists,
/// at the code's exact distance from that query.
pub open spec fn names_staged(batches: Seq<Seq<Seq<u8>>>, queries: Seq<Seq<u8>>, m: DMatch) -> bool {
    &&& m.query_idx < queries.len()
    &&& m.img_idx < batches.len()
    &&& m.train_idx < batches[m.img_idx as int].len()
    &&& m.distance as nat == hamming(queries[m.query_idx as int], batches[m.img_idx as int][m.train_idx as int])
}

/// Datasets whose sizes fit in memory.
pub open spec fn sizes_fit(batches: Seq<Seq<Seq<u8>>>) -> bool {
    &&& batches.len() <= usize::MAX
    &&& forall|i: int| 0 <= i < batches.len() ==> #[trigger] batches[i].len() <= usize::MAX
}

proof fn lemma_flat_entry(b: Seq<Seq<Seq<u8>>>, i: int)
    requires
        0 <= i < flat_entries(b).len(),
    ensures
        flat_entries(b)[i].1 < b.len(),
        flat_entries(b)[i].2 < b[flat_entries(b)[i].1 as int].len(),
        flat_entries(b)[i].0 == b[flat_entries(b)[i].1 as int][flat_entries(b)[i].2 as int],
    decreases b.len(),
{
    if b.len() > 0 {
        let p = flat_entries(b.drop_last());
        if i < p.len() {
            lemma_flat_entry(b.drop_last(), i);
            assert(flat_entries(b)[i] == p[i]);
        }
    }
}

proof fn lemma_row_names_staged(batches: Seq<Seq<Seq<u8>>>, queries: Seq<Seq<u8>>, qi: int, ids: Seq<usize>)
    requires
        sizes_fit(batches),
        0 <= qi < queries.len() <= usize::MAX,
        is_code(queries[qi]),
        forall|j: int| 0 <= j < ids.len() ==> #[trigger] ids[j] < flat_entries(batches).len(),
    ensures
        forall|j: int| 0 <= j < ids.len() ==> names_staged(batches, queries,
            match_of(flat_entries(batches), queries[qi], qi, #[trigger] ids[j])),
{
    let e = flat_entries(batches);
    assert forall|j: int| 0 <= j < ids.len() implies names_staged(batches, queries,
        match_of(e, queries[qi], qi, #[trigger] ids[j])) by {
        let id = ids[j];
        lemma_flat_entry(batches, id as int);
        assert(batches[e[id as int].1 as int].len() <= usize::MAX);
        lemma_hamming_bound(queries[qi], e[id as int].0);
    }
}

proof fn lemma_compacted_from(rows: Seq<Seq<DMatch>>, compact: bool)
    ensures
        forall|j: int| 0 <= j < compacted(rows, compact).len() ==> exists|i: int| 0 <= i < rows.len() && #[trigger] compacted(rows, compact)[j] == rows[i],
    decreases rows.len(),
{
    if rows.len() > 0 {
        lemma_compacted_from(rows.drop_last(), compact);
        let p = compacted(rows.drop_last(), compact);
        assert forall|j: int| 0 <= j < compacted(rows, compact).len() implies exists|i: int| 0 <= i < rows.len() && #[trigger] compacted(rows, compact)[j] == rows[i] by {
            if j < p.len() {
                let i = choose|i: int| 0 <= i < rows.drop_last().len() && p[j] == rows.drop_last()[i];
                assert(compacted(rows, compact)[j] == rows[i]);
            } else {
                assert(compacted(rows, compact)[j] == rows[rows.len() - 1]);
            }
        }
    }
}

proof fn lemma_knn_row_names(batches: Seq<Seq<Seq<u8>>>, queries: Seq<Seq<u8>>, masks: Seq<Seq<u8>>, qi: int, k: nat)
    requires
        sizes_fit(batches),
        all_queries(queries),
        0 <= qi < queries.len() <= usize::MAX,
    ensures
        forall|j: int| 0 <= j < knn_row(flat_entries(batches), queries[qi], masks, qi, k).len() ==> names_staged(batches, queries,
            #[trigger] knn_row(flat_entries(batches), queries[qi], masks, qi, k)[j]),
{
    let e = flat_entries(batches);
    let ks = keys(e, queries[qi], masks, qi);
    lemma_ranked_in_range(ks, 256);
    lemma_top_bound(ranked(ks, 256), k, e.len());
    let ids = top(ranked(ks, 256), k);
    lemma_row_names_staged(batches, queries, qi, ids);
    assert forall|j: int| 0 <= j < knn_row(e, queries[qi], masks, qi, k).len() implies names_staged(batches, queries,
        #[trigger] knn_row(e, queries[qi], masks, qi, k)[j]) by {
        assert(knn_row(e, queries[qi], masks, qi, k)[j] == match_of(e, queries[qi], qi, ids[j]));
    }
}

proof fn lemma_radius_row_names(batches: Seq<Seq<Seq<u8>>>, queries: Seq<Seq<u8>>, masks: Seq<Seq<u8>>, qi: int, r: nat)
    requires
        sizes_fit(batches),
        all_queries(queries),
        0 <= qi < queries.len() <= usize::MAX,
    ensures
        forall|j: int| 0 <= j < radius_row(flat_entries(batches), queries[qi], masks, qi, r).len() ==> names_staged(batches, queries,
            #[trigger] radius_row(flat_entries(batches), queries[qi], masks, qi, r)[j]),
{
    let e = flat_entries(batches);
    let ks = keys(e, queries[qi], masks, qi);
    lemma_ranked_in_range(ks, r as int);
    let ids = ranked(ks, r as int);
    lemma_row_names_staged(batches, queries, qi, ids);
    assert forall|j: int| 0 <= j < radius_row(e, queries[qi], masks, qi, r).len() implies names_staged(batches, queries,
        #[trigger] radius_row(e, queries[qi], masks, qi, r)[j]) by {
        assert(radius_row(e, queries[qi], masks, qi, r)[j] == match_of(e, queries[qi], qi, ids[j]));
    }
}

proof fn lemma_best_names(batches: Seq<Seq<Seq<u8>>>, queries: Seq<Seq<u8>>, masks: Seq<Seq<u8>>, n: nat)
    requires
        sizes_fit(batches),
        all_queries(queries),
        n <= queries.len() <= usize::MAX,
    ensures
        forall|j: int| 0 <= j < best_matches(flat_entries(batches), queries, masks, n).len() ==> names_staged(batches, queries,
            #[trigger] best_matches(flat_entries(batches), queries, masks, n)[j]),
    decreases n,
{
    if n > 0 {
        lemma_best_names(batches, queries, masks, (n - 1) as nat);
        lemma_knn_row_names(batches, queries, masks, n - 1, 1);
        let p = best_matches(flat_entries(batches), queries, masks, (n - 1) as nat);
        let row = knn_row(flat_entries(batches), queries[n - 1], masks, n - 1, 1);
        assert forall|j: int| 0 <= j < best_matches(flat_entries(batches), queries, masks, n).len() implies names_staged(batches, queries,
            #[trigger] best_matches(flat_entries(batches), queries, masks, n)[j]) by {
            if j < p.len() {
                assert(best_matches(flat_entries(batches), queries, masks, n)[j] == p[j]);
            } else {
                assert(best_matches(flat_entries(batches), queries, masks, n)[j] == row[j - p.len()]);
            }
        }
    }
}

/// What `train` commits after `add` has staged `batches` into an empty
/// matcher is `Some((flat_entries(batches), batches.len()))`. Every match
/// that a best-match, k-nearest or radius query then returns names a code of
/// those batches, at its exact distance from the query. Once `clear` has
/// left nothing committed, every query fails with `EmptyDataset` instead of
/// returning stale matches.
pub proof fn lemma_queries_see_only_trained(
    batches: Seq<Seq<Seq<u8>>>,
    queries: Seq<Seq<u8>>,
    masks: Seq<Seq<u8>>,
    k: nat,
    max_distance: nat,
    compact: bool,
)
    requires
        all_codes(batches),
        sizes_fit(batches),
        queries.len() <= usize::MAX,
    ensures
        ({
            let c = Some((flat_entries(batches), batches.len()));
            &&& (best_outcome(c, queries, masks) matches Ok(ms) ==> forall|j: int| 0 <= j < ms.len() ==> names_staged(batches, queries, #[trigger] ms[j]))
            &&& (knn_outcome(c, queries, masks, k, compact) matches Ok(rows) ==> forall|i: int, j: int|
                0 <= i < rows.len() && 0 <= j < rows[i].len() ==> names_staged(batches, queries, #[trigger] rows[i][j]))
            &&& (radius_outcome(c, queries, masks, max_distance, compact) matches Ok(rows) ==> forall|i: int, j: int|
                0 <= i < rows.len() && 0 <= j < rows[i].len() ==> names_staged(batches, queries, #[trigger] rows[i][j]))
        }),
        best_outcome(None, queries, masks) == Err::<Seq<DMatch>, DescriptorError>(DescriptorError::EmptyDataset),
        knn_outcome(None, queries, masks, k, compact) == Err::<Seq<Seq<DMatch>>, DescriptorError>(DescriptorError::EmptyDataset),
        radius_outcome(None, queries, masks, max_distance, compact) == Err::<Seq<Seq<DMatch>>, DescriptorError>(DescriptorError::EmptyDataset),
{
    let e = flat_entries(batches);
    let c = Some((e, batches.len()));
    if all_queries(queries) {
        lemma_best_names(batches, queries, masks, queries.len());
        let krows = Seq::new(queries.len(), |qi: int| knn_row(e, queries[qi], masks, qi, k));
        lemma_compacted_from(krows, compact);
        if let Ok(rows) = knn_outcome(c, queries, masks, k, compact) {
            assert forall|i: int, j: int| 0 <= i < rows.len() && 0 <= j < rows[i].len() implies names_staged(batches, queries, #[trigger] rows[i][j]) by {
                let qi = choose|qi: int| 0 <= qi < krows.len() && #[trigger] compacted(krows, compact)[i] == krows[qi];
                lemma_knn_row_names(batches, queries, masks, qi, k);
                assert(rows[i][j] == knn_row(e, queries[qi], masks, qi, k)[j]);
            }
        }
        let rrows = Seq::new(queries.len(), |qi: int| radius_row(e, queries[qi], masks, qi, max_distance));
        lemma_compacted_from(rrows, compact);
        if let Ok(rows) = radius_outcome(c, queries, masks, max_distance, compact) {
            assert forall|i: int, j: int| 0 <= i < rows.len() && 0 <= j < rows[i].len() implies names_staged(batches, queries, #[trigger] rows[i][j]) by {
                let qi = choose|qi: int| 0 <= qi < rrows.len() && #[trigger] compacted(rrows, compact)[i] == rrows[qi];
                lemma_radius_row_names(batches, queries, masks, qi, max_distance);
                assert(rows[i][j] == radius_row(e, queries[qi], masks, qi, max_distance)[j]);
            }
        }
    }
}

} // verus!
