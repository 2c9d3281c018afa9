//! Byte-array distance kernels: the bit-parallel ("classic") and the
//! hardware-popcount ("native") variants, with an optional cutoff.

use vstd::prelude::*;
use crate::popcount::{popcount8, popcount64, byte_of, popcnt64_classic};
use crate::distance::{distance_upto, hamming, distance_fits, bounded_result, within, lemma_distance_upto_bounds, lemma_distance_upto_monotone};

verus! {

/// Number of one bits in a 64-bit word, as the processor counts them.
pub assume_specification[ <u64>::count_ones ](x: u64) -> (r: u32)
    ensures
        r == popcount64(x),
;

/// Number of one bits in a byte, as the processor counts them.
pub assume_specification[ <u8>::count_ones ](x: u8) -> (r: u32)
    ensures
        r == popcount8(x),
;

/// Population count with the processor's instruction.
pub fn popcnt64_native(x: u64) -> (r: u64)
    ensures
        r == popcount64(x),
{
    x.count_ones() as u64
}

pub(crate) proof fn lemma_byte_of_load(w: u64, b0: u8, b1: u8, b2: u8, b3: u8, b4: u8, b5: u8, b6: u8, b7: u8)
    requires
        w == (b0 as u64) | ((b1 as u64) << 8u64) | ((b2 as u64) << 16u64) | ((b3 as u64) << 24u64)
            | ((b4 as u64) << 32u64) | ((b5 as u64) << 40u64) | ((b6 as u64) << 48u64) | ((
        b7 as u64) << 56u64),
    ensures
        byte_of(w, 0) == b0,
        byte_of(w, 1) == b1,
        byte_of(w, 2) == b2,
        byte_of(w, 3) == b3,
        byte_of(w, 4) == b4,
        byte_of(w, 5) == b5,
        byte_of(w, 6) == b6,
        byte_of(w, 7) == b7,
{
    assert(byte_of(w, 0) == b0 && byte_of(w, 1) == b1 && byte_of(w, 2) == b2 && byte_of(w, 3)
        == b3 && byte_of(w, 4) == b4 && byte_of(w, 5) == b5 && byte_of(w, 6) == b6 && byte_of(w, 7)
        == b7) by (bit_vector)
        requires
            w == (b0 as u64) | ((b1 as u64) << 8u64) | ((b2 as u64) << 16u64) | ((b3 as u64)
                << 24u64) | ((b4 as u64) << 32u64) | ((b5 as u64) << 40u64) | ((b6 as u64)
                << 48u64) | ((b7 as u64) << 56u64),
    ;
}

/// The little-endian 64-bit word made of `s[i..i + 8]`.
fn load_word(s: &[u8], i: usize) -> (w: u64)
    requires
        i + 8 <= s.len(),
    ensures
        forall|k: u64| k < 8 ==> #[trigger] byte_of(w, k) == s[i + k],
{
    let w: u64 = (s[i] as u64) | ((s[i + 1] as u64) << 8u64) | ((s[i + 2] as u64) << 16u64) | ((
    s[i + 3] as u64) << 24u64) | ((s[i + 4] as u64) << 32u64) | ((s[i + 5] as u64) << 40u64) | ((
    s[i + 6] as u64) << 48u64) | ((s[i + 7] as u64) << 56u64);
    proof {
        lemma_byte_of_load(w, s[i as int], s[i + 1], s[i + 2], s[i + 3], s[i + 4], s[i + 5], s[i + 6], s[i + 7]);
        assert forall|k: u64| k < 8 implies #[trigger] byte_of(w, k) == s[i + k] by {
            if k == 0 {} else if k == 1 {} else if k == 2 {} else if k == 3 {}
            else if k == 4 {} else if k == 5 {} else if k == 6 {} else {}
        }
    }
    w
}

proof fn lemma_popcount64_of_byte(x: u8)
    ensures
        popcount64(x as u64) == popcount8(x),
{
    assert(popcount64(x as u64) == popcount8(x)) by (bit_vector);
}

proof fn lemma_byte_of_xor(x: u64, y: u64, k: u64)
    requires
        k < 8,
    ensures
        byte_of(x ^ y, k) == byte_of(x, k) ^ byte_of(y, k),
{
    assert(byte_of(x ^ y, k) == byte_of(x, k) ^ byte_of(y, k)) by (bit_vector)
        requires
            k < 8,
    ;
}

/// The popcount of the XOR of two loaded words is the distance of the
/// eight bytes they were loaded from.
proof fn lemma_word_distance(a: Seq<u8>, b: Seq<u8>, i: int, wa: u64, wb: u64)
    requires
        0 <= i,
        i + 8 <= a.len(),
        i + 8 <= b.len(),
        forall|k: u64| k < 8 ==> #[trigger] byte_of(wa, k) == a[i + k],
        forall|k: u64| k < 8 ==> #[trigger] byte_of(wb, k) == b[i + k],
    ensures
        distance_upto(a, b, i + 8) == distance_upto(a, b, i) + popcount64(wa ^ wb),
{
    lemma_byte_of_xor(wa, wb, 0);
    lemma_byte_of_xor(wa, wb, 1);
    lemma_byte_of_xor(wa, wb, 2);
    lemma_byte_of_xor(wa, wb, 3);
    lemma_byte_of_xor(wa, wb, 4);
    lemma_byte_of_xor(wa, wb, 5);
    lemma_byte_of_xor(wa, wb, 6);
    lemma_byte_of_xor(wa, wb, 7);
    assert(byte_of(wa, 0) == a[i + 0] && byte_of(wb, 0) == b[i + 0]);
    assert(byte_of(wa, 1) == a[i + 1] && byte_of(wb, 1) == b[i + 1]);
    assert(byte_of(wa, 2) == a[i + 2] && byte_of(wb, 2) == b[i + 2]);
    assert(byte_of(wa, 3) == a[i + 3] && byte_of(wb, 3) == b[i + 3]);
    assert(byte_of(wa, 4) == a[i + 4] && byte_of(wb, 4) == b[i + 4]);
    assert(byte_of(wa, 5) == a[i + 5] && byte_of(wb, 5) == b[i + 5]);
    assert(byte_of(wa, 6) == a[i + 6] && byte_of(wb, 6) == b[i + 6]);
    assert(byte_of(wa, 7) == a[i + 7] && byte_of(wb, 7) == b[i + 7]);
    reveal_with_fuel(distance_upto, 9);
}


/// Differing bits of `a[i..i + 8]` and `b[i..i + 8]`, with the native popcount.
pub(crate) fn word_distance_native(a: &[u8], b: &[u8], i: usize) -> (r: u64)
    requires
        i + 8 <= a.len(),
        i + 8 <= b.len(),
    ensures
        distance_upto(a@, b@, i + 8) == distance_upto(a@, b@, i as int) + r,
        r <= 64,
{
    let wa = load_word(a, i);
    let wb = load_word(b, i);
    let r = popcnt64_native(wa ^ wb);
    proof {
        lemma_word_distance(a@, b@, i as int, wa, wb);
        lemma_distance_upto_monotone(a@, b@, i as int, i + 8);
    }
    r
}

/// Differing bits of the single bytes `x` and `y`, with the native popcount.
pub(crate) fn byte_distance_native(x: u8, y: u8) -> (r: u64)
    ensures
        r == popcount8(x ^ y),
        r <= 8,
{
    proof {
        crate::popcount::lemma_popcount8_le(x ^ y);
    }
    (x ^ y).count_ones() as u64
}

/// Bitwise Hamming distance of two equal-length byte arrays using the native
/// popcount. With `max_dist >= 0` the scan stops early and reports the
/// `u64::MAX` sentinel once the distance exceeds `max_dist`.
pub fn hamming_distance_bytes_native(a: &[u8], b: &[u8], max_dist: i64) -> (r: u64)
    requires
        a.len() == b.len(),
        distance_fits(a.len() as nat),
    ensures
        r == bounded_result(hamming(a@, b@), max_dist),
{
    let length = a.len();
    proof {
        lemma_distance_upto_bounds(a@, b@, length as int);
    }
    let mut difference: u64 = 0;
    let mut i: usize = 0;
    if max_dist < 0 {
        while length - i >= 32
            invariant
                i <= length,
                length == a.len(),
                a.len() == b.len(),
                distance_fits(a.len() as nat),
                distance_upto(a@, b@, length as int) <= 8 * length,
                difference == distance_upto(a@, b@, i as int),
            decreases length - i,
        {
            proof {
                lemma_distance_upto_monotone(a@, b@, i + 32, length as int);
            }
            let d0 = word_distance_native(a, b, i);
            let d1 = word_distance_native(a, b, i + 8);
            let d2 = word_distance_native(a, b, i + 16);
            let d3 = word_distance_native(a, b, i + 24);
            difference = difference + (d0 + d1 + d2 + d3);
            i = i + 32;
        }
        while length - i >= 8
            invariant
                i <= length,
                length == a.len(),
                a.len() == b.len(),
                distance_fits(a.len() as nat),
                distance_upto(a@, b@, length as int) <= 8 * length,
                difference == distance_upto(a@, b@, i as int),
            decreases length - i,
        {
            proof {
                lemma_distance_upto_monotone(a@, b@, i + 8, length as int);
            }
            difference = difference + word_distance_native(a, b, i);
            i = i + 8;
        }
        while i < length
            invariant
                i <= length,
                length == a.len(),
                a.len() == b.len(),
                distance_fits(a.len() as nat),
                distance_upto(a@, b@, length as int) <= 8 * length,
                difference == distance_upto(a@, b@, i as int),
            decreases length - i,
        {
            proof {
                lemma_distance_upto_monotone(a@, b@, i + 1, length as int);
            }
            difference = difference + byte_distance_native(a[i], b[i]);
            i = i + 1;
        }
        difference
    } else {
        let max_dist_u64 = max_dist as u64;
        while length - i >= 32
            invariant
                i <= length,
                length == a.len(),
                a.len() == b.len(),
                distance_fits(a.len() as nat),
                distance_upto(a@, b@, length as int) <= 8 * length,
                max_dist >= 0,
                max_dist_u64 == max_dist,
                difference == distance_upto(a@, b@, i as int),
            decreases length - i,
        {
            proof {
                lemma_distance_upto_monotone(a@, b@, i + 32, length as int);
            }
            let d0 = word_distance_native(a, b, i);
            let d1 = word_distance_native(a, b, i + 8);
            let d2 = word_distance_native(a, b, i + 16);
            let d3 = word_distance_native(a, b, i + 24);
            difference = difference + (d0 + d1 + d2 + d3);
            i = i + 32;
            if difference > max_dist_u64 {
                proof {
                    lemma_distance_upto_monotone(a@, b@, i as int, length as int);
                }
                return u64::MAX;
            }
        }
        while length - i >= 8
            invariant
                i <= length,
                length == a.len(),
                a.len() == b.len(),
                distance_fits(a.len() as nat),
                distance_upto(a@, b@, length as int) <= 8 * length,
                max_dist >= 0,
                max_dist_u64 == max_dist,
                difference == distance_upto(a@, b@, i as int),
                            decreases length - i,
        {
            proof {
                lemma_distance_upto_monotone(a@, b@, i + 8, length as int);
            }
            difference = difference + word_distance_native(a, b, i);
            i = i + 8;
        }
        while i < length
            invariant
                i <= length,
                length == a.len(),
                a.len() == b.len(),
                distance_fits(a.len() as nat),
                distance_upto(a@, b@, length as int) <= 8 * length,
                max_dist >= 0,
                max_dist_u64 == max_dist,
                difference == distance_upto(a@, b@, i as int),
                            decreases length - i,
        {
            proof {
                lemma_distance_upto_monotone(a@, b@, i + 1, length as int);
            }
            difference = difference + byte_distance_native(a[i], b[i]);
            i = i + 1;
        }

        if difference > max_dist_u64 {
            u64::MAX
        } else {
            difference
        }
    }
}

/// Differing bits of `a[i..i + 8]` and `b[i..i + 8]`, with the classic popcount.
pub(crate) fn word_distance_classic(a: &[u8], b: &[u8], i: usize) -> (r: u64)
    requires
        i + 8 <= a.len(),
        i + 8 <= b.len(),
    ensures
        distance_upto(a@, b@, i + 8) == distance_upto(a@, b@, i as int) + r,
        r <= 64,
{
    let wa = load_word(a, i);
    let wb = load_word(b, i);
    let r = popcnt64_classic(wa ^ wb);
    proof {
        lemma_word_distance(a@, b@, i as int, wa, wb);
        lemma_distance_upto_monotone(a@, b@, i as int, i + 8);
    }
    r
}

/// Differing bits of the single bytes `x` and `y`, with the classic popcount.
pub(crate) fn byte_distance_classic(x: u8, y: u8) -> (r: u64)
    ensures
        r == popcount8(x ^ y),
        r <= 8,
{
    proof {
        crate::popcount::lemma_popcount8_le(x ^ y);
        lemma_popcount64_of_byte(x ^ y);
    }
    popcnt64_classic((x ^ y) as u64)
}

/// Bitwise Hamming distance of two equal-length byte arrays using the classic
/// popcount. With `max_dist >= 0` the scan stops early and reports the
/// `u64::MAX` sentinel once the distance exceeds `max_dist`.
pub fn hamming_distance_bytes_classic(a: &[u8], b: &[u8], max_dist: i64) -> (r: u64)
    requires
        a.len() == b.len(),
        distance_fits(a.len() as nat),
    ensures
        r == bounded_result(hamming(a@, b@), max_dist),
{
    let length = a.len();
    proof {
        lemma_distance_upto_bounds(a@, b@, length as int);
    }
    let mut difference: u64 = 0;
    let mut i: usize = 0;
    if max_dist < 0 {
        while length - i >= 32
            invariant
                i <= length,
                length == a.len(),
                a.len() == b.len(),
                distance_fits(a.len() as nat),
                distance_upto(a@, b@, length as int) <= 8 * length,
                difference == distance_upto(a@, b@, i as int),
            decreases length - i,
        {
            proof {
                lemma_distance_upto_monotone(a@, b@, i + 32, length as int);
            }
            let d0 = word_distance_classic(a, b, i);
            let d1 = word_distance_classic(a, b, i + 8);
            let d2 = word_distance_classic(a, b, i + 16);
            let d3 = word_distance_classic(a, b, i + 24);
            difference = difference + (d0 + d1 + d2 + d3);
            i = i + 32;
        }
        while length - i >= 8
            invariant
                i <= length,
                length == a.len(),
                a.len() == b.len(),
                distance_fits(a.len() as nat),
                distance_upto(a@, b@, length as int) <= 8 * length,
                difference == distance_upto(a@, b@, i as int),
            decreases length - i,
        {
            proof {
                lemma_distance_upto_monotone(a@, b@, i + 8, length as int);
            }
            difference = difference + word_distance_classic(a, b, i);
            i = i + 8;
        }
        while i < length
            invariant
                i <= length,
                length == a.len(),
                a.len() == b.len(),
                distance_fits(a.len() as nat),
                distance_upto(a@, b@, length as int) <= 8 * length,
                difference == distance_upto(a@, b@, i as int),
            decreases length - i,
        {
            proof {
                lemma_distance_upto_monotone(a@, b@, i + 1, length as int);
            }
            difference = difference + byte_distance_classic(a[i], b[i]);
            i = i + 1;
        }
        difference
    } else {
        let max_dist_u64 = max_dist as u64;
        while length - i >= 8
            invariant
                i <= length,
                length == a.len(),
                a.len() == b.len(),
                distance_fits(a.len() as nat),
                distance_upto(a@, b@, length as int) <= 8 * length,
                max_dist >= 0,
                max_dist_u64 == max_dist,
                difference == distance_upto(a@, b@, i as int),
            decreases length - i,
        {
            proof {
                lemma_distance_upto_monotone(a@, b@, i + 8, length as int);
            }
            difference = difference + word_distance_classic(a, b, i);
            i = i + 8;
            if difference > max_dist_u64 {
                proof {
                    lemma_distance_upto_monotone(a@, b@, i as int, length as int);
                }
                return u64::MAX;
            }
        }
        while i < length
            invariant
                i <= length,
                length == a.len(),
                a.len() == b.len(),
                distance_fits(a.len() as nat),
                distance_upto(a@, b@, length as int) <= 8 * length,
                max_dist >= 0,
                max_dist_u64 == max_dist,
                difference == distance_upto(a@, b@, i as int),
                            decreases length - i,
        {
            proof {
                lemma_distance_upto_monotone(a@, b@, i + 1, length as int);
            }
            difference = difference + byte_distance_classic(a[i], b[i]);
            i = i + 1;
            if difference > max_dist_u64 {
                proof {
                    lemma_distance_upto_monotone(a@, b@, i as int, length as int);
                }
                return u64::MAX;
            }
        }

        if difference > max_dist_u64 {
            u64::MAX
        } else {
            difference
        }
    }
}

} // verus!
