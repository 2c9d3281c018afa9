//! Mathematical model of the Hamming distance between byte sequences.

use vstd::prelude::*;
use crate::popcount::{popcount8, lemma_popcount8_le};

verus! {

/// Byte sequences of length `n` have distances that fit in an `i64` (every
/// byte contributes at most eight bits), so a distance can also serve as a
/// signed threshold.
pub open spec fn distance_fits(n: nat) -> bool {
    8 * n <= i64::MAX
}

/// Number of differing bits between two bytes.
pub open spec fn byte_distance(x: u8, y: u8) -> nat {
    popcount8(x ^ y)
}

/// Number of differing bits between the first `n` bytes of `a` and of `b`.
pub open spec fn distance_upto(a: Seq<u8>, b: Seq<u8>, n: int) -> nat
    decreases n,
{
    if n <= 0 {
        0
    } else {
        distance_upto(a, b, n - 1) + byte_distance(a[n - 1], b[n - 1])
    }
}

/// Bitwise Hamming distance of `a` against the same-length prefix of `b`.
pub open spec fn hamming(a: Seq<u8>, b: Seq<u8>) -> nat {
    distance_upto(a, b, a.len() as int)
}

/// A distance `d` is accepted under the threshold `max_dist`; a negative
/// threshold accepts every distance.
pub open spec fn within(d: nat, max_dist: i64) -> bool {
    max_dist < 0 || d <= max_dist
}

/// What a bounded kernel reports: the distance when it is accepted, and the
/// `u64::MAX` sentinel otherwise.
pub open spec fn bounded_result(d: nat, max_dist: i64) -> u64 {
    if within(d, max_dist) {
        d as u64
    } else {
        u64::MAX
    }
}

pub proof fn lemma_distance_upto_bounds(a: Seq<u8>, b: Seq<u8>, n: int)
    ensures
        n >= 0 ==> distance_upto(a, b, n) <= 8 * n,
    decreases n,
{
    if n > 0 {
        lemma_distance_upto_bounds(a, b, n - 1);
        lemma_popcount8_le(a[n - 1] ^ b[n - 1]);
    }
}

pub proof fn lemma_distance_upto_monotone(a: Seq<u8>, b: Seq<u8>, m: int, n: int)
    requires
        m <= n,
    ensures
        distance_upto(a, b, m) <= distance_upto(a, b, n),
        n >= 0 && m >= 0 ==> distance_upto(a, b, n) - distance_upto(a, b, m) <= 8 * (n - m),
    decreases n - m,
{
    if m < n {
        lemma_distance_upto_monotone(a, b, m, n - 1);
        lemma_popcount8_le(a[n - 1] ^ b[n - 1]);
    }
}

/// The distance only depends on the compared prefixes.
pub proof fn lemma_distance_upto_ext(a: Seq<u8>, b: Seq<u8>, c: Seq<u8>, d: Seq<u8>, n: int)
    requires
        forall|i: int| 0 <= i < n ==> a[i] == c[i] && b[i] == d[i],
    ensures
        distance_upto(a, b, n) == distance_upto(c, d, n),
    decreases n,
{
    if n > 0 {
        lemma_distance_upto_ext(a, b, c, d, n - 1);
    }
}

} // verus!
