//! 256-bit binary codes and their Hamming distance.

use vstd::prelude::*;

verus! {

/// Number of bytes in one binary code.
pub const CODE_BYTES: usize = 32;

/// Number of bits in one binary code.
pub const CODE_BITS: u32 = 256;

/// Bit `j` (0 = least significant) of byte `b`.
pub open spec fn bit_of(b: u8, j: int) -> bool {
    (b >> (j as u8)) & 1u8 == 1u8
}

/// Number of differing bits among the lowest `j` bits of `a` and `b`.
pub open spec fn byte_dist_upto(a: u8, b: u8, j: nat) -> nat
    decreases j,
{
    if j == 0 {
        0
    } else {
        byte_dist_upto(a, b, (j - 1) as nat) + if bit_of(a, j - 1) != bit_of(b, j - 1) {
            1nat
        } else {
            0nat
        }
    }
}

/// Hamming distance between two bytes.
pub open spec fn byte_dist(a: u8, b: u8) -> nat {
    byte_dist_upto(a, b, 8)
}

/// Hamming distance over the first `n` bytes of two codes.
pub open spec fn dist_upto(a: Seq<u8>, b: Seq<u8>, n: nat) -> nat
    decreases n,
{
    if n == 0 {
        0
    } else {
        dist_upto(a, b, (n - 1) as nat) + byte_dist(a[n - 1], b[n - 1])
    }
}

/// Hamming distance between two 256-bit codes.
pub open spec fn hamming(a: Seq<u8>, b: Seq<u8>) -> nat {
    dist_upto(a, b, CODE_BYTES as nat)
}

/// A well-formed binary code holds exactly 32 bytes.
pub open spec fn is_code(c: Seq<u8>) -> bool {
    c.len() == CODE_BYTES
}

pub proof fn lemma_byte_dist_upto_bound(a: u8, b: u8, j: nat)
    ensures
        byte_dist_upto(a, b, j) <= j,
    decreases j,
{
    if j > 0 {
        lemma_byte_dist_upto_bound(a, b, (j - 1) as nat);
    }
}

pub proof fn lemma_dist_upto_bound(a: Seq<u8>, b: Seq<u8>, n: nat)
    ensures
        dist_upto(a, b, n) <= 8 * n,
    decreases n,
{
    if n > 0 {
        lemma_dist_upto_bound(a, b, (n - 1) as nat);
        lemma_byte_dist_upto_bound(a[n - 1], b[n - 1], 8);
    }
}

/// The Hamming distance of two codes never exceeds the code width.
pub proof fn lemma_hamming_bound(a: Seq<u8>, b: Seq<u8>)
    ensures
        hamming(a, b) <= CODE_BITS,
{
    lemma_dist_upto_bound(a, b, CODE_BYTES as nat);
}

proof fn lemma_all_bytes_far(a: Seq<u8>, b: Seq<u8>, s: nat, n: nat)
    requires
        n <= a.len(),
        n <= b.len(),
        forall|k: int| 0 <= k < n ==> byte_dist(#[trigger] a[k], b[k]) > s,
    ensures
        dist_upto(a, b, n) >= n * (s + 1),
    decreases n,
{
    if n > 0 {
        lemma_all_bytes_far(a, b, s, (n - 1) as nat);
        assert(byte_dist(a[n - 1], b[n - 1]) > s);
        assert(n * (s + 1) == (n - 1) * (s + 1) + (s + 1)) by (nonlinear_arith);
        assert(dist_upto(a, b, n) == dist_upto(a, b, (n - 1) as nat) + byte_dist(a[n - 1], b[n - 1]));
    } else {
        assert(n * (s + 1) == 0) by (nonlinear_arith)
            requires
                n == 0,
        ;
    }
}

/// Two codes within `32 * s + 31` bits of each other differ by at most `s`
/// bits in at least one of their 32 byte substrings.
pub proof fn lemma_substring_pigeonhole(a: Seq<u8>, b: Seq<u8>, s: nat)
    requires
        is_code(a),
        is_code(b),
        hamming(a, b) <= 32 * s + 31,
    ensures
        exists|k: int| 0 <= k < CODE_BYTES && byte_dist(#[trigger] a[k], b[k]) <= s,
{
    if forall|k: int| 0 <= k < CODE_BYTES ==> byte_dist(#[trigger] a[k], b[k]) > s {
        lemma_all_bytes_far(a, b, s, CODE_BYTES as nat);
        assert(false);
    }
}

/// Multi-index hashing recall: when two codes are at most `r` bits apart,
/// some byte substring of theirs is at most `r / 32` bits apart, so a search
/// of every substring table within radius `r / 32` finds the pair.
pub proof fn lemma_pigeonhole(a: Seq<u8>, b: Seq<u8>, r: nat)
    requires
        is_code(a),
        is_code(b),
        hamming(a, b) <= r,
    ensures
        exists|k: int| 0 <= k < CODE_BYTES && byte_dist(#[trigger] a[k], b[k]) <= r / 32,
{
    assert(r <= 32 * (r / 32) + 31);
    lemma_substring_pigeonhole(a, b, r / 32);
}

/// Number of differing bits between two bytes.
pub fn byte_distance(a: u8, b: u8) -> (r: u32)
    ensures
        r as nat == byte_dist(a, b),
        r <= 8,
{
    let mut j: u8 = 0;
    let mut c: u32 = 0;
    while j < 8
        invariant
            j <= 8,
            c as nat == byte_dist_upto(a, b, j as nat),
            c <= j,
        decreases 8 - j,
    {
        proof {
            lemma_byte_dist_upto_bound(a, b, j as nat);
            assert(((a >> j) & 1u8 != (b >> j) & 1u8) == (((a >> j) & 1u8 == 1u8) != ((b >> j)
                & 1u8 == 1u8))) by (bit_vector);
        }
        if (a >> j) & 1 != (b >> j) & 1 {
            c = c + 1;
        }
        j = j + 1;
    }
    c
}

/// Hamming distance between two 256-bit codes.
pub fn hamming_distance(a: &Vec<u8>, b: &Vec<u8>) -> (r: u32)
    requires
        is_code(a@),
        is_code(b@),
    ensures
        r as nat == hamming(a@, b@),
        r <= CODE_BITS,
{
    let mut i: usize = 0;
    let mut d: u32 = 0;
    while i < CODE_BYTES
        invariant
            is_code(a@),
            is_code(b@),
            i <= CODE_BYTES,
            d as nat == dist_upto(a@, b@, i as nat),
            d <= 8 * i,
        decreases CODE_BYTES - i,
    {
        let x = byte_distance(a[i], b[i]);
        d = d + x;
        i = i + 1;
    }
    d
}

} // verus!
