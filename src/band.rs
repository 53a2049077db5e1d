//! The band layout of a line support region and the statistics that turn
//! its rows into a line band descriptor. Weighted projected gradients come
//! in as integers (fixed point); each row is reduced to four signed-split
//! sums, and each band to the mean and standard deviation of those sums
//! over its own rows and its neighbours'.

use vstd::prelude::*;
use vstd::arithmetic::div_mod::lemma_fundamental_div_mod;

verus! {

/// First row of the region that band `j` of `m` bands of width `w` draws
/// on: the first row of the band before it, or its own for the first band.
pub open spec fn band_start(m: nat, w: nat, j: nat) -> nat {
    if j == 0 {
        0
    } else {
        ((j - 1) * w) as nat
    }
}

/// One past the last row that band `j` draws on: the end of the band after
/// it, or its own end for the last band.
pub open spec fn band_end(m: nat, w: nat, j: nat) -> nat {
    if j + 1 >= m {
        (j + 1) * w
    } else {
        (j + 2) * w
    }
}

/// The rows of the region that band `j` of `m` bands of width `w` draws on.
/// The first and last bands take `2 * w` rows, the others `3 * w` (a single
/// band takes its own `w`).
pub fn band_rows(m: usize, w: usize, j: usize) -> (r: (usize, usize))
    requires
        j < m,
        m * w <= usize::MAX,
    ensures
        r.0 == band_start(m as nat, w as nat, j as nat),
        r.1 == band_end(m as nat, w as nat, j as nat),
        r.0 <= r.1 <= m * w,
        r.1 - r.0 == if m == 1 {
            w as int
        } else if j == 0 || j + 1 == m {
            2 * w
        } else {
            3 * w
        },
{
    proof {
        assert((j + 1) * w <= m * w) by (nonlinear_arith)
            requires
                j < m,
        ;
        if j + 1 < m {
            assert((j + 2) * w <= m * w) by (nonlinear_arith)
                requires
                    j + 1 < m,
            ;
        }
        assert((j + 2) * w == (j + 1) * w + w) by (nonlinear_arith);
        assert((j + 1) * w == j * w + w) by (nonlinear_arith);
        if j > 0 {
            assert(j * w == (j - 1) * w + w) by (nonlinear_arith);
        }
    }
    let start = if j == 0 {
        0
    } else {
        (j - 1) * w
    };
    let end = if j + 1 >= m {
        (j + 1) * w
    } else {
        (j + 2) * w
    };
    (start, end)
}

/// The four signed-split sums of one row of the region.
#[derive(Clone, Copy, Debug, PartialEq, Eq, Structural)]
pub struct RowSums {
    /// Sum of the positive components perpendicular to the line.
    pub pos_perp: u64,
    /// Sum of the negated negative components perpendicular to the line.
    pub neg_perp: u64,
    /// Sum of the positive components along the line.
    pub pos_par: u64,
    /// Sum of the negated negative components along the line.
    pub neg_par: u64,
}

/// Sum of the positive values among the first `n`.
pub open spec fn pos_sum(v: Seq<i32>, n: nat) -> int
    decreases n,
{
    if n == 0 {
        0
    } else {
        pos_sum(v, (n - 1) as nat) + if v[n - 1] > 0 {
            v[n - 1] as int
        } else {
            0
        }
    }
}

/// Sum of the negated negative values among the first `n`.
pub open spec fn neg_sum(v: Seq<i32>, n: nat) -> int
    decreases n,
{
    if n == 0 {
        0
    } else {
        neg_sum(v, (n - 1) as nat) + if v[n - 1] < 0 {
            -(v[n - 1] as int)
        } else {
            0
        }
    }
}

proof fn lemma_split_sums_bound(v: Seq<i32>, n: nat)
    requires
        n <= v.len(),
    ensures
        0 <= pos_sum(v, n) <= n * 0x8000_0000,
        0 <= neg_sum(v, n) <= n * 0x8000_0000,
    decreases n,
{
    if n > 0 {
        lemma_split_sums_bound(v, (n - 1) as nat);
        assert(n * 0x8000_0000 == (n - 1) * 0x8000_0000 + 0x8000_0000) by (nonlinear_arith);
    }
}

/// Positive and negated negative sums of `v`.
fn split_sum(v: &Vec<i32>) -> (r: (u64, u64))
    requires
        v.len() <= 0x1_0000_0000,
    ensures
        r.0 == pos_sum(v@, v.len() as nat),
        r.1 == neg_sum(v@, v.len() as nat),
{
    let mut pos: u64 = 0;
    let mut neg: u64 = 0;
    let mut i: usize = 0;
    while i < v.len()
        invariant
            v.len() <= 0x1_0000_0000,
            i <= v.len(),
            pos == pos_sum(v@, i as nat),
            neg == neg_sum(v@, i as nat),
        decreases v.len() - i,
    {
        proof {
            lemma_split_sums_bound(v@, (i + 1) as nat);
            assert((i + 1) * 0x8000_0000 <= 0x1_0000_0000 * 0x8000_0000) by (nonlinear_arith)
                requires
                    i + 1 <= 0x1_0000_0000,
            ;
        }
        let x = v[i];
        if x > 0 {
            pos = pos + x as u64;
        } else if x < 0 {
            neg = neg + (-(x as i64)) as u64;
        }
        i = i + 1;
    }
    (pos, neg)
}

/// Reduces one row of weighted projected gradients, perpendicular and
/// parallel components pixel by pixel, to its four signed-split sums.
pub fn accumulate_row(perp: &Vec<i32>, par: &Vec<i32>) -> (r: RowSums)
    requires
        perp.len() <= 0x1_0000_0000,
        par.len() <= 0x1_0000_0000,
    ensures
        r.pos_perp == pos_sum(perp@, perp.len() as nat),
        r.neg_perp == neg_sum(perp@, perp.len() as nat),
        r.pos_par == pos_sum(par@, par.len() as nat),
        r.neg_par == neg_sum(par@, par.len() as nat),
{
    let (pos_perp, neg_perp) = split_sum(perp);
    let (pos_par, neg_par) = split_sum(par);
    RowSums { pos_perp, neg_perp, pos_par, neg_par }
}

/// Component `c` of a row: positive perpendicular, negative perpendicular,
/// positive parallel, negative parallel.
pub open spec fn comp(r: RowSums, c: int) -> int {
    if c == 0 {
        r.pos_perp as int
    } else if c == 1 {
        r.neg_perp as int
    } else if c == 2 {
        r.pos_par as int
    } else {
        r.neg_par as int
    }
}

/// Largest local weight.
pub const MAX_WEIGHT: u32 = 0xFFFF;

/// First row of the three-band window centred on band `j` (for the first
/// band it lies one band before the region).
pub open spec fn window_start(w: nat, j: nat) -> int {
    (j - 1) * w
}

/// Component `c` of row `i`, times the local weight of the row's place in
/// a window that starts at row `base`.
pub open spec fn wval(rows: Seq<RowSums>, local: Seq<u32>, base: int, i: int, c: int) -> int {
    comp(rows[i], c) * local[i - base]
}

/// Sum of the weighted component `c` over rows `lo..hi`.
pub open spec fn col_sum(rows: Seq<RowSums>, local: Seq<u32>, base: int, c: int, lo: int, hi: int) -> int
    decreases hi - lo,
{
    if hi <= lo {
        0
    } else {
        col_sum(rows, local, base, c, lo, hi - 1) + wval(rows, local, base, hi - 1, c)
    }
}

/// Sum of squared deviations of the weighted component `c` from `mean` over
/// rows `lo..hi`.
pub open spec fn dev_sum(rows: Seq<RowSums>, local: Seq<u32>, base: int, c: int, lo: int, hi: int, mean: int) -> int
    decreases hi - lo,
{
    if hi <= lo {
        0
    } else {
        dev_sum(rows, local, base, c, lo, hi - 1, mean) + (wval(rows, local, base, hi - 1, c) - mean) * (
        wval(rows, local, base, hi - 1, c) - mean)
    }
}

/// Mean of the weighted component `c` over the rows band `j` draws on,
/// rounded down.
pub open spec fn band_mean(rows: Seq<RowSums>, local: Seq<u32>, m: nat, w: nat, j: nat, c: int) -> int {
    col_sum(rows, local, window_start(w, j), c, band_start(m, w, j) as int, band_end(m, w, j) as int) / (
    band_end(m, w, j) - band_start(m, w, j))
}

/// Variance of the weighted component `c` over the rows band `j` draws on,
/// about the rounded mean, rounded down.
pub open spec fn band_var(rows: Seq<RowSums>, local: Seq<u32>, m: nat, w: nat, j: nat, c: int) -> int {
    dev_sum(
        rows,
        local,
        window_start(w, j),
        c,
        band_start(m, w, j) as int,
        band_end(m, w, j) as int,
        band_mean(rows, local, m, w, j, c),
    ) / (band_end(m, w, j) - band_start(m, w, j))
}

/// `r` is the integer square root of `x`.
pub open spec fn is_isqrt(r: int, x: int) -> bool {
    0 <= r && r * r <= x < (r + 1) * (r + 1)
}

/// Every component of every row fits in 32 bits.
pub open spec fn rows_fit(rows: Seq<RowSums>) -> bool {
    forall|i: int, c: int| 0 <= i < rows.len() && 0 <= c < 4 ==> #[trigger] comp(rows[i], c) <= u32::MAX
}

/// Every local weight is at most `MAX_WEIGHT`.
pub open spec fn weights_fit(local: Seq<u32>) -> bool {
    forall|i: int| 0 <= i < local.len() ==> #[trigger] local[i] <= MAX_WEIGHT
}

/// Integer square root, by bisection.
pub fn isqrt(x: u128) -> (r: u64)
    ensures
        is_isqrt(r as int, x as int),
{
    let mut lo: u128 = 0;
    let mut hi: u128 = 0x1_0000_0000_0000_0000;
    proof {
        assert(hi * hi == 0x1_0000_0000_0000_0000_0000_0000_0000_0000) by (nonlinear_arith)
            requires
                hi == 0x1_0000_0000_0000_0000,
        ;
    }
    while hi - lo > 1
        invariant
            lo < hi <= 0x1_0000_0000_0000_0000,
            lo * lo <= x,
            x < hi * hi,
        decreases hi - lo,
    {
        let mid = lo + (hi - lo) / 2;
        proof {
            assert(mid * mid < 0x1_0000_0000_0000_0000_0000_0000_0000_0000) by (nonlinear_arith)
                requires
                    mid < 0x1_0000_0000_0000_0000,
            ;
        }
        if mid * mid <= x {
            lo = mid;
        } else {
            hi = mid;
        }
    }
    assert(hi == lo + 1);
    lo as u64
}

fn comp_exec(r: &RowSums, c: usize) -> (v: u64)
    requires
        c < 4,
    ensures
        v == comp(*r, c as int),
{
    if c == 0 {
        r.pos_perp
    } else if c == 1 {
        r.neg_perp
    } else if c == 2 {
        r.pos_par
    } else {
        r.neg_par
    }
}

/// Bound on one weighted value.
pub const WVAL_BOUND: u64 = 0xFFFF_FFFF * 0xFFFF;

proof fn lemma_wval_bound(rows: Seq<RowSums>, local: Seq<u32>, base: int, i: int, c: int)
    requires
        0 <= i < rows.len(),
        0 <= i - base < local.len(),
        rows_fit(rows),
        weights_fit(local),
        0 <= c < 4,
    ensures
        0 <= wval(rows, local, base, i, c) <= WVAL_BOUND,
{
    let v = comp(rows[i], c);
    let l = local[i - base];
    assert(v <= u32::MAX);
    assert(l <= MAX_WEIGHT);
    assert(0 <= v * l <= 0xFFFF_FFFF * 0xFFFF) by (nonlinear_arith)
        requires
            0 <= v <= 0xFFFF_FFFF,
            0 <= l <= 0xFFFF,
    ;
}

proof fn lemma_col_sum_bound(rows: Seq<RowSums>, local: Seq<u32>, base: int, c: int, lo: int, hi: int)
    requires
        0 <= lo <= hi <= rows.len(),
        base <= lo,
        hi - base <= local.len(),
        rows_fit(rows),
        weights_fit(local),
        0 <= c < 4,
    ensures
        0 <= col_sum(rows, local, base, c, lo, hi) <= (hi - lo) * WVAL_BOUND,
    decreases hi - lo,
{
    if hi > lo {
        lemma_col_sum_bound(rows, local, base, c, lo, hi - 1);
        lemma_wval_bound(rows, local, base, hi - 1, c);
        assert((hi - lo) * WVAL_BOUND == (hi - 1 - lo) * WVAL_BOUND + WVAL_BOUND) by (nonlinear_arith);
    }
}

proof fn lemma_dev_sum_bound(rows: Seq<RowSums>, local: Seq<u32>, base: int, c: int, lo: int, hi: int, mean: int)
    requires
        0 <= lo <= hi <= rows.len(),
        base <= lo,
        hi - base <= local.len(),
        rows_fit(rows),
        weights_fit(local),
        0 <= c < 4,
        0 <= mean <= WVAL_BOUND,
    ensures
        0 <= dev_sum(rows, local, base, c, lo, hi, mean) <= (hi - lo) * (WVAL_BOUND * WVAL_BOUND),
    decreases hi - lo,
{
    if hi > lo {
        lemma_dev_sum_bound(rows, local, base, c, lo, hi - 1, mean);
        lemma_wval_bound(rows, local, base, hi - 1, c);
        let v = wval(rows, local, base, hi - 1, c);
        assert(0 <= (v - mean) * (v - mean) <= WVAL_BOUND * WVAL_BOUND) by (nonlinear_arith)
            requires
                0 <= v <= WVAL_BOUND,
                0 <= mean <= WVAL_BOUND,
        ;
        assert((hi - lo) * (WVAL_BOUND * WVAL_BOUND) == (hi - 1 - lo) * (WVAL_BOUND * WVAL_BOUND) + WVAL_BOUND
            * WVAL_BOUND) by (nonlinear_arith);
    }
}

/// Mean and standard deviation of the weighted component `c` over rows
/// `lo..hi`, weighted by the window that starts at `lo - off`.
fn column_stats(rows: &Vec<RowSums>, local: &Vec<u32>, off: usize, c: usize, lo: usize, hi: usize) -> (r: (u64, u64))
    requires
        lo < hi <= rows.len(),
        hi - lo <= 0x8000_0000,
        off <= lo + off,
        hi - lo + off <= local.len(),
        c < 4,
        rows_fit(rows@),
        weights_fit(local@),
    ensures
        r.0 as int == col_sum(rows@, local@, lo - off, c as int, lo as int, hi as int) / (hi - lo),
        is_isqrt(r.1 as int, dev_sum(rows@, local@, lo - off, c as int, lo as int, hi as int, r.0 as int) / (hi - lo)),
        r.0 <= WVAL_BOUND,
        r.1 <= WVAL_BOUND,
{
    let ghost base = lo - off;
    let mut sum: u128 = 0;
    let mut i: usize = lo;
    while i < hi
        invariant
            lo <= i <= hi <= rows.len(),
            hi - lo <= 0x8000_0000,
            hi - lo + off <= local.len(),
            base == lo - off,
            c < 4,
            rows_fit(rows@),
            weights_fit(local@),
            sum == col_sum(rows@, local@, base, c as int, lo as int, i as int),
        decreases hi - i,
    {
        proof {
            lemma_col_sum_bound(rows@, local@, base, c as int, lo as int, i + 1);
            lemma_wval_bound(rows@, local@, base, i as int, c as int);
            assert((i + 1 - lo) * WVAL_BOUND <= 0x8000_0000 * WVAL_BOUND) by (nonlinear_arith)
                requires
                    i + 1 - lo <= 0x8000_0000,
            ;
        }
        let v = comp_exec(&rows[i], c) as u128 * local[i - lo + off] as u128;
        proof {
            assert(comp(rows@[i as int], c as int) <= u32::MAX);
            assert(local@[i - lo + off] <= MAX_WEIGHT);
            assert(v == wval(rows@, local@, base, i as int, c as int));
        }
        sum = sum + v;
        i = i + 1;
    }
    let n = (hi - lo) as u128;
    let mean = sum / n;
    proof {
        lemma_col_sum_bound(rows@, local@, base, c as int, lo as int, hi as int);
        lemma_fundamental_div_mod(sum as int, n as int);
        assert(mean <= WVAL_BOUND) by (nonlinear_arith)
            requires
                sum == n * mean + sum % n,
                sum % n >= 0,
                sum <= n * WVAL_BOUND,
                n >= 1,
        ;
    }
    let mut dev: u128 = 0;
    let mut i: usize = lo;
    while i < hi
        invariant
            lo <= i <= hi <= rows.len(),
            hi - lo <= 0x8000_0000,
            hi - lo + off <= local.len(),
            base == lo - off,
            c < 4,
            rows_fit(rows@),
            weights_fit(local@),
            mean <= WVAL_BOUND,
            dev == dev_sum(rows@, local@, base, c as int, lo as int, i as int, mean as int),
        decreases hi - i,
    {
        proof {
            lemma_dev_sum_bound(rows@, local@, base, c as int, lo as int, i + 1, mean as int);
            lemma_wval_bound(rows@, local@, base, i as int, c as int);
            assert((i + 1 - lo) * (WVAL_BOUND * WVAL_BOUND) <= 0x8000_0000 * (WVAL_BOUND * WVAL_BOUND))
                by (nonlinear_arith)
                requires
                    i + 1 - lo <= 0x8000_0000,
            ;
            assert(comp(rows@[i as int], c as int) <= u32::MAX);
            assert(local@[i - lo + off] <= MAX_WEIGHT);
        }
        let v = comp_exec(&rows[i], c) as u128 * local[i - lo + off] as u128;
        assert(v == wval(rows@, local@, base, i as int, c as int));
        let diff: u128 = if v >= mean {
            v - mean
        } else {
            mean - v
        };
        proof {
            assert(diff * diff == (v - mean) * (v - mean)) by (nonlinear_arith)
                requires
                    diff == v - mean || diff == mean - v,
            ;
            assert(diff * diff <= WVAL_BOUND * WVAL_BOUND) by (nonlinear_arith)
                requires
                    diff <= WVAL_BOUND,
            ;
        }
        dev = dev + diff * diff;
        i = i + 1;
    }
    let var = dev / n;
    proof {
        lemma_dev_sum_bound(rows@, local@, base, c as int, lo as int, hi as int, mean as int);
        lemma_fundamental_div_mod(dev as int, n as int);
        assert(var <= WVAL_BOUND * WVAL_BOUND) by (nonlinear_arith)
            requires
                dev == n * var + dev % n,
                dev % n >= 0,
                dev <= n * (WVAL_BOUND * WVAL_BOUND),
                n >= 1,
        ;
    }
    let sd = isqrt(var);
    proof {
        assert(sd <= WVAL_BOUND) by (nonlinear_arith)
            requires
                sd * sd <= var,
                var <= WVAL_BOUND * WVAL_BOUND,
                sd >= 0,
        ;
    }
    (mean as u64, sd)
}

/// Entry `c` of the mean vector of band `j` in a descriptor.
pub open spec fn desc_mean(d: Seq<i64>, j: int, c: int) -> i64 {
    d[8 * j + c]
}

/// Entry `c` of the standard deviation vector of band `j` in a descriptor.
pub open spec fn desc_std(d: Seq<i64>, j: int, c: int) -> i64 {
    d[8 * j + 4 + c]
}

/// `d` is the line band descriptor of rows of `m` bands of width `w`, with
/// local weights `local` over each band's three-band window.
pub open spec fn is_band_descriptor(rows: Seq<RowSums>, local: Seq<u32>, m: nat, w: nat, d: Seq<i64>) -> bool {
    &&& d.len() == 8 * m
    &&& forall|j: int, c: int|
        0 <= j < m && 0 <= c < 4 ==> #[trigger] desc_mean(d, j, c) == band_mean(rows, local, m, w, j as nat, c)
    &&& forall|j: int, c: int|
        0 <= j < m && 0 <= c < 4 ==> is_isqrt(#[trigger] desc_std(d, j, c) as int, band_var(rows, local, m, w, j as nat, c))
}

/// An integer has one integer square root.
pub proof fn lemma_isqrt_unique(r1: int, r2: int, x: int)
    requires
        is_isqrt(r1, x),
        is_isqrt(r2, x),
    ensures
        r1 == r2,
{
    if r1 < r2 {
        assert((r1 + 1) * (r1 + 1) <= r2 * r2) by (nonlinear_arith)
            requires
                0 <= r1 < r2,
        ;
    } else if r2 < r1 {
        assert((r2 + 1) * (r2 + 1) <= r1 * r1) by (nonlinear_arith)
            requires
                0 <= r2 < r1,
        ;
    }
}

/// Rows and weights have one line band descriptor.
pub proof fn lemma_band_descriptor_unique(rows: Seq<RowSums>, local: Seq<u32>, m: nat, w: nat, d1: Seq<i64>, d2: Seq<i64>)
    requires
        is_band_descriptor(rows, local, m, w, d1),
        is_band_descriptor(rows, local, m, w, d2),
    ensures
        d1 == d2,
{
    assert forall|i: int| 0 <= i < d1.len() implies d1[i] == d2[i] by {
        let j = i / 8;
        let c = i % 8;
        assert(0 <= j < m && 0 <= c < 8 && i == 8 * j + c);
        if c < 4 {
            assert(desc_mean(d1, j, c) == desc_mean(d2, j, c));
        } else {
            assert(desc_std(d1, j, c - 4) == d1[i]);
            assert(desc_std(d2, j, c - 4) == d2[i]);
            lemma_isqrt_unique(
                desc_std(d1, j, c - 4) as int,
                desc_std(d2, j, c - 4) as int,
                band_var(rows, local, m, w, j as nat, c - 4),
            );
        }
    }
    assert(d1 =~= d2);
}

/// The line band descriptor of a support region of `m` bands of width `w`,
/// given the signed-split sums of its `m * w` rows and the local weights of
/// the `3 * w` rows of a band's window (its neighbour before, itself, its
/// neighbour after): for each band in order, the means of the four weighted
/// sums over the rows it draws on, then their standard deviations. The line
/// band descriptor takes `local[t]` proportional, in fixed point, to
/// `exp(-d^2 / (2 w^2))`, with `d` the distance of place `t` from the
/// window's centre row.
pub fn band_descriptor(rows: &Vec<RowSums>, local: &Vec<u32>, m: usize, w: usize) -> (r: Vec<i64>)
    requires
        m >= 1,
        w >= 1,
        rows.len() == m * w,
        3 * w <= 0x8000_0000,
        local.len() == 3 * w,
        rows_fit(rows@),
        weights_fit(local@),
    ensures
        is_band_descriptor(rows@, local@, m as nat, w as nat, r@),
{
    let mut r: Vec<i64> = Vec::new();
    let mut j: usize = 0;
    while j < m
        invariant
            m >= 1,
            w >= 1,
            rows.len() == m * w,
            3 * w <= 0x8000_0000,
            local.len() == 3 * w,
            rows_fit(rows@),
            weights_fit(local@),
            j <= m,
            r.len() == 8 * j,
            forall|j2: int, c: int|
                0 <= j2 < j && 0 <= c < 4 ==> #[trigger] desc_mean(r@, j2, c) == band_mean(rows@, local@, m as nat, w as nat, j2 as nat, c),
            forall|j2: int, c: int|
                0 <= j2 < j && 0 <= c < 4 ==> is_isqrt(#[trigger] desc_std(r@, j2, c) as int, band_var(rows@, local@, m as nat, w as nat, j2 as nat, c)),
        decreases m - j,
    {
        let (lo, hi) = band_rows(m, w, j);
        let off: usize = if j == 0 {
            w
        } else {
            0
        };
        proof {
            assert(hi > lo && hi - lo <= 3 * w) by (nonlinear_arith)
                requires
                    hi - lo == if m == 1 { w as int } else if j == 0 || j + 1 == m { 2 * w } else { 3 * w },
                    w >= 1,
            ;
            assert(lo - off == window_start(w as nat, j as nat)) by (nonlinear_arith)
                requires
                    lo == band_start(m as nat, w as nat, j as nat),
                    off == if j == 0 { w as int } else { 0 },
            ;
            assert(hi - lo + off <= 3 * w) by (nonlinear_arith)
                requires
                    hi - lo == if m == 1 { w as int } else if j == 0 || j + 1 == m { 2 * w } else { 3 * w },
                    off == if j == 0 { w as int } else { 0 },
            ;
        }
        let ghost before = r@;
        let s0 = column_stats(rows, local, off, 0, lo, hi);
        let s1 = column_stats(rows, local, off, 1, lo, hi);
        let s2 = column_stats(rows, local, off, 2, lo, hi);
        let s3 = column_stats(rows, local, off, 3, lo, hi);
        r.push(s0.0 as i64);
        r.push(s1.0 as i64);
        r.push(s2.0 as i64);
        r.push(s3.0 as i64);
        r.push(s0.1 as i64);
        r.push(s1.1 as i64);
        r.push(s2.1 as i64);
        r.push(s3.1 as i64);
        proof {
            let stats = seq![s0, s1, s2, s3];
            assert forall|c: int| 0 <= c < 4 implies desc_mean(r@, j as int, c) == stats[c].0 as int
                && desc_std(r@, j as int, c) == stats[c].1 as int by {}
            assert forall|j2: int, c: int|
                0 <= j2 < j + 1 && 0 <= c < 4 implies #[trigger] desc_mean(r@, j2, c) == band_mean(rows@, local@, m as nat, w as nat, j2 as nat, c) by {
                if j2 < j {
                    assert(desc_mean(r@, j2, c) == desc_mean(before, j2, c));
                }
            }
            assert forall|j2: int, c: int|
                0 <= j2 < j + 1 && 0 <= c < 4 implies is_isqrt(#[trigger] desc_std(r@, j2, c) as int, band_var(rows@, local@, m as nat, w as nat, j2 as nat, c)) by {
                if j2 < j {
                    assert(desc_std(r@, j2, c) == desc_std(before, j2, c));
                }
            }
        }
        j = j + 1;
    }
    r
}

} // verus!
