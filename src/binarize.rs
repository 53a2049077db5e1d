//! Binarization of line band descriptors into 256-bit codes: 32 fixed pairs
//! of bands are compared entry by entry, each comparison giving one bit.

use vstd::prelude::*;
use crate::code::{CODE_BYTES, bit_of};
use crate::matcher::DescriptorError;

verus! {

/// Entries per band in a real-valued descriptor: four means, then four
/// standard deviations.
pub const BAND_ENTRIES: usize = 8;

/// Bands the pair table draws from; shorter descriptors cannot be binarized.
pub const REFERENCE_BANDS: usize = 9;

/// The two bands that code byte `p` compares: all pairs `(i, j)` with
/// `i < j < 9`, in lexicographic order, but for `(0, 7)`, `(0, 8)`, `(1, 7)`
/// and `(1, 8)`.
pub open spec fn band_pair(p: int) -> (int, int) {
    if p < 6 {
        (0, p + 1)
    } else if p < 11 {
        (1, p - 4)
    } else if p < 17 {
        (2, p - 8)
    } else if p < 22 {
        (3, p - 13)
    } else if p < 26 {
        (4, p - 17)
    } else if p < 29 {
        (5, p - 20)
    } else if p < 31 {
        (6, p - 22)
    } else {
        (7, 8)
    }
}

/// Bit `b` of code byte `p` is set exactly when entry `b` of the first
/// band of pair `p` exceeds entry `b` of the second.
pub open spec fn binary_bit(d: Seq<i64>, p: int, b: int) -> bool {
    d[8 * band_pair(p).0 + b] > d[8 * band_pair(p).1 + b]
}

/// `c` is the binary code of the real-valued descriptor `d`.
pub open spec fn binarized(d: Seq<i64>, c: Seq<u8>) -> bool {
    &&& c.len() == CODE_BYTES
    &&& forall|p: int, b: int| 0 <= p < 32 && 0 <= b < 8 ==> #[trigger] bit_of(c[p], b) == binary_bit(d, p, b)
}

/// The descriptor with the sign of every entry flipped.
pub open spec fn negated(d: Seq<i64>) -> Seq<i64> {
    d.map_values(|x: i64| (-x) as i64)
}

fn band_pair_exec(p: usize) -> (r: (usize, usize))
    requires
        p < 32,
    ensures
        r.0 as int == band_pair(p as int).0,
        r.1 as int == band_pair(p as int).1,
        r.0 < r.1 < REFERENCE_BANDS,
{
    if p < 6 {
        (0, p + 1)
    } else if p < 11 {
        (1, p - 4)
    } else if p < 17 {
        (2, p - 8)
    } else if p < 22 {
        (3, p - 13)
    } else if p < 26 {
        (4, p - 17)
    } else if p < 29 {
        (5, p - 20)
    } else if p < 31 {
        (6, p - 22)
    } else {
        (7, 8)
    }
}

proof fn lemma_set_bit(x: u8, b: u8, c: u8)
    requires
        b < 8,
        c < 8,
    ensures
        (((x | (1u8 << b)) >> c) & 1u8 == 1u8) == (((x >> c) & 1u8 == 1u8) || c == b),
{
    assert((((x | (1u8 << b)) >> c) & 1u8 == 1u8) == (((x >> c) & 1u8 == 1u8) || c == b))
        by (bit_vector)
        requires
            b < 8,
            c < 8,
    ;
}

/// A byte is determined by its eight bits.
pub proof fn lemma_byte_from_bits(x: u8, y: u8)
    requires
        forall|c: int| 0 <= c < 8 ==> #[trigger] bit_of(x, c) == bit_of(y, c),
    ensures
        x == y,
{
    assert(bit_of(x, 0) == bit_of(y, 0));
    assert(bit_of(x, 1) == bit_of(y, 1));
    assert(bit_of(x, 2) == bit_of(y, 2));
    assert(bit_of(x, 3) == bit_of(y, 3));
    assert(bit_of(x, 4) == bit_of(y, 4));
    assert(bit_of(x, 5) == bit_of(y, 5));
    assert(bit_of(x, 6) == bit_of(y, 6));
    assert(bit_of(x, 7) == bit_of(y, 7));
    assert(x == y) by (bit_vector)
        requires
            ((x >> 0u8) & 1u8 == 1u8) == ((y >> 0u8) & 1u8 == 1u8),
            ((x >> 1u8) & 1u8 == 1u8) == ((y >> 1u8) & 1u8 == 1u8),
            ((x >> 2u8) & 1u8 == 1u8) == ((y >> 2u8) & 1u8 == 1u8),
            ((x >> 3u8) & 1u8 == 1u8) == ((y >> 3u8) & 1u8 == 1u8),
            ((x >> 4u8) & 1u8 == 1u8) == ((y >> 4u8) & 1u8 == 1u8),
            ((x >> 5u8) & 1u8 == 1u8) == ((y >> 5u8) & 1u8 == 1u8),
            ((x >> 6u8) & 1u8 == 1u8) == ((y >> 6u8) & 1u8 == 1u8),
            ((x >> 7u8) & 1u8 == 1u8) == ((y >> 7u8) & 1u8 == 1u8),
    ;
}

/// Binarizing is deterministic: a descriptor has exactly one binary code.
pub proof fn lemma_binarize_deterministic(d: Seq<i64>, c1: Seq<u8>, c2: Seq<u8>)
    requires
        binarized(d, c1),
        binarized(d, c2),
    ensures
        c1 == c2,
{
    assert forall|p: int| 0 <= p < c1.len() implies c1[p] == c2[p] by {
        assert forall|c: int| 0 <= c < 8 implies #[trigger] bit_of(c1[p], c) == bit_of(c2[p], c) by {
            assert(bit_of(c1[p], c) == binary_bit(d, p, c));
            assert(bit_of(c2[p], c) == binary_bit(d, p, c));
        }
        lemma_byte_from_bits(c1[p], c2[p]);
    }
    assert(c1 =~= c2);
}

/// Flipping the sign of every entry complements each bit whose two compared
/// entries differ.
pub proof fn lemma_negation_complements(d: Seq<i64>, c: Seq<u8>, cn: Seq<u8>, p: int, b: int)
    requires
        forall|i: int| 0 <= i < d.len() ==> #[trigger] d[i] != i64::MIN,
        d.len() >= 8 * REFERENCE_BANDS,
        binarized(d, c),
        binarized(negated(d), cn),
        0 <= p < 32,
        0 <= b < 8,
        d[8 * band_pair(p).0 + b] != d[8 * band_pair(p).1 + b],
    ensures
        bit_of(cn[p], b) == !bit_of(c[p], b),
{
    let i = 8 * band_pair(p).0 + b;
    let j = 8 * band_pair(p).1 + b;
    assert(bit_of(c[p], b) == binary_bit(d, p, b));
    assert(bit_of(cn[p], b) == binary_bit(negated(d), p, b));
    assert(negated(d)[i] == -d[i]);
    assert(negated(d)[j] == -d[j]);
}

/// The binary code of one real-valued descriptor, whose entries are given
/// as integers ordered as the real values are. Refused when the descriptor
/// has fewer than nine bands.
pub fn binarize_descriptor(d: &Vec<i64>) -> (r: Result<Vec<u8>, DescriptorError>)
    ensures
        d.len() < BAND_ENTRIES * REFERENCE_BANDS ==> r == Err::<Vec<u8>, DescriptorError>(DescriptorError::InvalidInput),
        d.len() >= BAND_ENTRIES * REFERENCE_BANDS ==> (r matches Ok(c) && binarized(d@, c@)),
{
    if d.len() < BAND_ENTRIES * REFERENCE_BANDS {
        return Err(DescriptorError::InvalidInput);
    }
    let mut code: Vec<u8> = Vec::new();
    let mut p: usize = 0;
    while p < CODE_BYTES
        invariant
            d.len() >= BAND_ENTRIES * REFERENCE_BANDS,
            p <= CODE_BYTES,
            code.len() == p,
            forall|p2: int, b: int| 0 <= p2 < p && 0 <= b < 8 ==> #[trigger] bit_of(code[p2], b) == binary_bit(d@, p2, b),
        decreases CODE_BYTES - p,
    {
        let (f, s) = band_pair_exec(p);
        let mut byte: u8 = 0;
        let mut b: u8 = 0;
        proof {
            assert forall|c: int| 0 <= c < 8 implies !#[trigger] bit_of(0u8, c) by {
                let c8 = c as u8;
                assert((0u8 >> c8) & 1u8 == 0u8) by (bit_vector);
            }
        }
        while b < 8
            invariant
                d.len() >= BAND_ENTRIES * REFERENCE_BANDS,
                p < CODE_BYTES,
                f as int == band_pair(p as int).0,
                s as int == band_pair(p as int).1,
                f < s < REFERENCE_BANDS,
                b <= 8,
                forall|c: int| 0 <= c < b ==> #[trigger] bit_of(byte, c) == binary_bit(d@, p as int, c),
                forall|c: int| b <= c < 8 ==> !#[trigger] bit_of(byte, c),
            decreases 8 - b,
        {
            let ghost prev = byte;
            let bi = b as usize;
            if d[BAND_ENTRIES * f + bi] > d[BAND_ENTRIES * s + bi] {
                byte = byte | (1u8 << b);
                proof {
                    assert forall|c: int| 0 <= c < 8 implies #[trigger] bit_of(byte, c) == (bit_of(prev, c) || c == b) by {
                        lemma_set_bit(prev, b, c as u8);
                    }
                }
            }
            b = b + 1;
        }
        code.push(byte);
        p = p + 1;
    }
    Ok(code)
}

/// The binary codes of a batch of real-valued descriptors, in order.
/// Refused when any descriptor has fewer than nine bands.
pub fn binarize_descriptors(ds: &Vec<Vec<i64>>) -> (r: Result<Vec<Vec<u8>>, DescriptorError>)
    ensures
        (exists|i: int| 0 <= i < ds.len() && #[trigger] ds[i].len() < BAND_ENTRIES * REFERENCE_BANDS)
            ==> r == Err::<Vec<Vec<u8>>, DescriptorError>(DescriptorError::InvalidInput),
        (forall|i: int| 0 <= i < ds.len() ==> #[trigger] ds[i].len() >= BAND_ENTRIES * REFERENCE_BANDS)
            ==> (r matches Ok(cs) && cs.len() == ds.len() && forall|i: int| 0 <= i < ds.len() ==> binarized(
            #[trigger] ds[i]@,
            cs[i]@,
        )),
{
    let mut cs: Vec<Vec<u8>> = Vec::new();
    let mut i: usize = 0;
    while i < ds.len()
        invariant
            i <= ds.len(),
            cs.len() == i,
            forall|t: int| 0 <= t < i ==> #[trigger] ds[t].len() >= BAND_ENTRIES * REFERENCE_BANDS,
            forall|t: int| 0 <= t < i ==> binarized(#[trigger] ds[t]@, cs[t]@),
        decreases ds.len() - i,
    {
        match binarize_descriptor(&ds[i]) {
            Err(e) => {
                return Err(e);
            },
            Ok(c) => {
                cs.push(c);
            },
        }
        i = i + 1;
    }
    Ok(cs)
}

} // verus!
