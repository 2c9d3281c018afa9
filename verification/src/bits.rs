//! Bit-level view of byte strings: single bits, bitwise distances over bit
//! ranges, and fixed-width substrings read as numbers.

use vstd::prelude::*;
use crate::distance::{byte_distance, distance_upto, hamming};
use vstd::arithmetic::power2::{pow2, lemma_pow2_unfold, lemma_pow2_pos};
use vstd::bits::{lemma_u32_shl_is_mul, lemma_u32_pow2_no_overflow};

verus! {

/// Bit `p` of a byte string, counting from the most significant bit of byte 0.
pub open spec fn bit_at(code: Seq<u8>, p: int) -> bool {
    (code[p / 8] >> ((7 - p % 8) as u8)) & 1u8 == 1u8
}

/// Bit `p` of a 32-bit number, counting from the least significant bit.
pub open spec fn bit32(x: u32, p: u32) -> bool {
    (x >> p) & 1u32 == 1u32
}

/// Number of bit positions in `lo..hi` at which `a` and `b` differ.
pub open spec fn bits_dist(a: Seq<u8>, b: Seq<u8>, lo: int, hi: int) -> nat
    decreases hi - lo,
{
    if hi <= lo {
        0
    } else {
        bits_dist(a, b, lo, hi - 1) + bit_diff(a, b, hi - 1)
    }
}

/// The `w`-bit substring of `code` that starts at bit `off`, read as a number
/// whose most significant bit is the substring's first bit.
pub open spec fn sub_val(code: Seq<u8>, off: int, w: int) -> nat
    decreases w,
{
    if w <= 0 {
        0
    } else {
        2 * sub_val(code, off, w - 1) + if bit_at(code, off + w - 1) {
            1nat
        } else {
            0nat
        }
    }
}

/// Differing bits add up over adjacent ranges.
pub proof fn lemma_bits_dist_split(a: Seq<u8>, b: Seq<u8>, lo: int, mid: int, hi: int)
    requires
        lo <= mid <= hi,
    ensures
        bits_dist(a, b, lo, hi) == bits_dist(a, b, lo, mid) + bits_dist(a, b, mid, hi),
    decreases hi - mid,
{
    if mid < hi {
        lemma_bits_dist_split(a, b, lo, mid, hi - 1);
    }
}

/// A range of `n` bits has at most `n` differing bits.
pub proof fn lemma_bits_dist_le(a: Seq<u8>, b: Seq<u8>, lo: int, hi: int)
    ensures
        lo <= hi ==> bits_dist(a, b, lo, hi) <= hi - lo,
    decreases hi - lo,
{
    if lo < hi {
        lemma_bits_dist_le(a, b, lo, hi - 1);
    }
}

proof fn lemma_xor_bit(x: u8, y: u8, k: u8)
    requires
        k < 8,
    ensures
        ((x ^ y) >> k) & 1u8 == if (x >> k) & 1u8 != (y >> k) & 1u8 {
            1u8
        } else {
            0u8
        },
        (x >> k) & 1u8 <= 1,
        (y >> k) & 1u8 <= 1,
{
    assert((x >> k) & 1u8 <= 1) by (bit_vector);
    assert((y >> k) & 1u8 <= 1) by (bit_vector);
    assert(((x ^ y) >> k) & 1u8 == if (x >> k) & 1u8 != (y >> k) & 1u8 {
        1u8
    } else {
        0u8
    }) by (bit_vector)
        requires
            k < 8,
    ;
}

/// Whether `a` and `b` differ at bit `p`, as a count.
pub open spec fn bit_diff(a: Seq<u8>, b: Seq<u8>, p: int) -> nat {
    if bit_at(a, p) != bit_at(b, p) {
        1
    } else {
        0
    }
}

proof fn lemma_bits_dist_8(a: Seq<u8>, b: Seq<u8>, lo: int)
    ensures
        bits_dist(a, b, lo, lo + 8) == bit_diff(a, b, lo) + bit_diff(a, b, lo + 1) + bit_diff(
            a,
            b,
            lo + 2,
        ) + bit_diff(a, b, lo + 3) + bit_diff(a, b, lo + 4) + bit_diff(a, b, lo + 5) + bit_diff(
            a,
            b,
            lo + 6,
        ) + bit_diff(a, b, lo + 7),
{
    assert(bits_dist(a, b, lo, lo) == 0);
    assert(bits_dist(a, b, lo, lo + 1) == bit_diff(a, b, lo));
    assert(bits_dist(a, b, lo, lo + 2) == bits_dist(a, b, lo, lo + 1) + bit_diff(a, b, lo + 1));
    assert(bits_dist(a, b, lo, lo + 3) == bits_dist(a, b, lo, lo + 2) + bit_diff(a, b, lo + 2));
    assert(bits_dist(a, b, lo, lo + 4) == bits_dist(a, b, lo, lo + 3) + bit_diff(a, b, lo + 3));
    assert(bits_dist(a, b, lo, lo + 5) == bits_dist(a, b, lo, lo + 4) + bit_diff(a, b, lo + 4));
    assert(bits_dist(a, b, lo, lo + 6) == bits_dist(a, b, lo, lo + 5) + bit_diff(a, b, lo + 5));
    assert(bits_dist(a, b, lo, lo + 7) == bits_dist(a, b, lo, lo + 6) + bit_diff(a, b, lo + 6));
    assert(bits_dist(a, b, lo, lo + 8) == bits_dist(a, b, lo, lo + 7) + bit_diff(a, b, lo + 7));
}

/// Bit `k` of byte `i`, counted from the top, is bit `7 - k` of the byte.
proof fn lemma_bit_at_byte(a: Seq<u8>, i: int, k: int)
    requires
        0 <= k < 8,
    ensures
        bit_at(a, 8 * i + k) == ((a[i] >> ((7 - k) as u8)) & 1u8 == 1u8),
{
    assert((8 * i + k) / 8 == i && (8 * i + k) % 8 == k);
}

proof fn lemma_byte_diff(a: Seq<u8>, b: Seq<u8>, i: int, k: int)
    requires
        0 <= k < 8,
    ensures
        bit_diff(a, b, 8 * i + k) == ((a[i] ^ b[i]) >> ((7 - k) as u8)) & 1u8,
{
    lemma_bit_at_byte(a, i, k);
    lemma_bit_at_byte(b, i, k);
    lemma_xor_bit(a[i], b[i], (7 - k) as u8);
}

/// The differing bits of byte `i` are the bits of the XOR of the two bytes.
proof fn lemma_byte_bits(a: Seq<u8>, b: Seq<u8>, i: int)
    ensures
        bits_dist(a, b, 8 * i, 8 * i + 8) == byte_distance(a[i], b[i]),
{
    let z = a[i] ^ b[i];
    lemma_bits_dist_8(a, b, 8 * i);
    lemma_byte_diff(a, b, i, 0);
    lemma_byte_diff(a, b, i, 1);
    lemma_byte_diff(a, b, i, 2);
    lemma_byte_diff(a, b, i, 3);
    lemma_byte_diff(a, b, i, 4);
    lemma_byte_diff(a, b, i, 5);
    lemma_byte_diff(a, b, i, 6);
    lemma_byte_diff(a, b, i, 7);
    assert(z & 1u8 == (z >> 0u8) & 1u8) by (bit_vector);
}

/// The byte-wise Hamming distance counts the differing bits.
pub proof fn lemma_distance_upto_bits(a: Seq<u8>, b: Seq<u8>, n: int)
    requires
        0 <= n <= a.len(),
        n <= b.len(),
    ensures
        distance_upto(a, b, n) == bits_dist(a, b, 0, 8 * n),
    decreases n,
{
    if n > 0 {
        lemma_distance_upto_bits(a, b, n - 1);
        lemma_bits_dist_split(a, b, 0, 8 * (n - 1), 8 * n);
        lemma_byte_bits(a, b, n - 1);
    }
}

/// The Hamming distance of equal-length strings counts their differing bits.
pub proof fn lemma_hamming_bits(a: Seq<u8>, b: Seq<u8>)
    requires
        a.len() == b.len(),
    ensures
        hamming(a, b) == bits_dist(a, b, 0, 8 * a.len() as int),
{
    lemma_distance_upto_bits(a, b, a.len() as int);
}

/// Bit `p` of a 64-bit number, counting from the least significant bit.
pub open spec fn bit64(x: u64, p: u64) -> bool {
    (x >> p) & 1u64 == 1u64
}

proof fn lemma_shift_in_bit(v: u32, b: u32, p: u32)
    requires
        v < 0x8000_0000,
        b <= 1,
        p < 32,
    ensures
        p == 0 ==> (bit32((2 * v + b) as u32, p) <==> b == 1),
        p > 0 ==> (bit32((2 * v + b) as u32, p) <==> bit32(v, (p - 1) as u32)),
{
    assert(p == 0 ==> ((((2 * v + b) as u32 >> p) & 1u32 == 1u32) <==> b == 1)) by (bit_vector)
        requires
            v < 0x8000_0000,
            b <= 1,
            p < 32,
    ;
    assert(p > 0 ==> ((((2 * v + b) as u32 >> p) & 1u32 == 1u32) <==> ((v >> ((p - 1) as u32))
        & 1u32 == 1u32))) by (bit_vector)
        requires
            v < 0x8000_0000,
            b <= 1,
            p < 32,
    ;
}

/// A substring value has `w` bits, and its bits, from the least significant
/// one up, are the substring's bits from its end back.
pub proof fn lemma_sub_val_bits(code: Seq<u8>, off: int, w: int)
    requires
        0 <= w <= 31,
    ensures
        sub_val(code, off, w) < pow2(w as nat),
        forall|p: u32|
            p < w ==> (#[trigger] bit32(sub_val(code, off, w) as u32, p) <==> bit_at(
                code,
                off + w - 1 - p,
            )),
    decreases w,
{
    if w > 0 {
        lemma_sub_val_bits(code, off, w - 1);
        lemma_pow2_unfold(w as nat);
        lemma_u32_pow2_no_overflow((w - 1) as nat);
        assert(pow2((w - 1) as nat) <= 0x4000_0000) by {
            vstd::arithmetic::power2::lemma_pow2_strictly_increases((w - 1) as nat, 31);
            vstd::arithmetic::power2::lemma2_to64();
        }
        let v = sub_val(code, off, w - 1) as u32;
        let b: u32 = if bit_at(code, off + w - 1) {
            1
        } else {
            0
        };
        assert(sub_val(code, off, w) == 2 * v + b);
        assert(sub_val(code, off, w) < pow2(w as nat));
        assert forall|p: u32| p < w implies (#[trigger] bit32(sub_val(code, off, w) as u32, p)
            <==> bit_at(code, off + w - 1 - p)) by {
            lemma_shift_in_bit(v, b, p);
        }
    } else {
        lemma_pow2_pos(w as nat);
    }
}

proof fn lemma_halve_bits(x: u32, p: u32)
    requires
        p < 31,
    ensures
        bit32(x >> 1u32, p) <==> bit32(x, (p + 1) as u32),
        x >> 1u32 == x / 2,
        x == 2 * (x >> 1u32) + (x & 1u32),
        (x & 1u32 == 1u32) <==> bit32(x, 0),
        x & 1u32 <= 1,
{
    assert((((x >> 1u32) >> p) & 1u32 == 1u32) <==> ((x >> ((p + 1) as u32)) & 1u32 == 1u32))
        by (bit_vector)
        requires
            p < 31,
    ;
    assert(x >> 1u32 == x / 2) by (bit_vector);
    assert(x == 2 * (x >> 1u32) + (x & 1u32)) by (bit_vector);
    assert((x & 1u32 == 1u32) <==> ((x >> 0u32) & 1u32 == 1u32)) by (bit_vector);
    assert(x & 1u32 <= 1) by (bit_vector);
}

/// Two numbers below `2^w` with the same low `w` bits are equal.
pub proof fn lemma_eq_from_bits(x: u32, y: u32, w: nat)
    requires
        w <= 32,
        x < pow2(w),
        y < pow2(w),
        forall|p: u32| p < w ==> (#[trigger] bit32(x, p) <==> bit32(y, p)),
    ensures
        x == y,
    decreases w,
{
    if w == 0 {
        vstd::arithmetic::power2::lemma2_to64();
    } else {
        lemma_pow2_unfold(w);
        lemma_halve_bits(x, 0);
        lemma_halve_bits(y, 0);
        assert forall|p: u32| p < (w - 1) as nat implies (#[trigger] bit32(x >> 1u32, p) <==> bit32(
            y >> 1u32,
            p,
        )) by {
            lemma_halve_bits(x, p);
            lemma_halve_bits(y, p);
            assert(bit32(x, (p + 1) as u32) <==> bit32(y, (p + 1) as u32));
        }
        lemma_eq_from_bits(x >> 1u32, y >> 1u32, (w - 1) as nat);
    }
}

proof fn lemma_shift_in_byte(acc: u64, byte: u8, p: u64)
    requires
        p < 64,
    ensures
        p < 8 ==> (bit64((acc << 8u64) | (byte as u64), p) <==> (byte >> (p as u8)) & 1u8
            == 1u8),
        p >= 8 ==> (bit64((acc << 8u64) | (byte as u64), p) <==> bit64(acc, (p - 8) as u64)),
{
    assert(p < 8 ==> (((((acc << 8u64) | (byte as u64)) >> p) & 1u64 == 1u64) <==> (byte >> (
    p as u8)) & 1u8 == 1u8)) by (bit_vector)
        requires
            p < 64,
    ;
    assert(p >= 8 ==> (((((acc << 8u64) | (byte as u64)) >> p) & 1u64 == 1u64) <==> (acc >> ((p
        - 8) as u64)) & 1u64 == 1u64)) by (bit_vector)
        requires
            p < 64,
    ;
}

proof fn lemma_window_bits(acc: u64, shift: u64, w: u32, p: u32)
    requires
        shift < 32,
        0 < w < 32,
        p < 32,
    ensures
        bit32(((acc >> shift) as u32) & (((1u32 << w) - 1) as u32), p) <==> (p < w && bit64(
            acc,
            (p + shift) as u64,
        )),
        ((acc >> shift) as u32) & (((1u32 << w) - 1) as u32) < (1u32 << w),
{
    assert(((((((acc >> shift) as u32) & (((1u32 << w) - 1) as u32)) >> p) & 1u32) == 1u32) <==> (
    p < w && ((acc >> ((p + shift) as u64)) & 1u64) == 1u64)) by (bit_vector)
        requires
            shift < 32,
            0 < w < 32,
            p < 32,
    ;
    assert(((acc >> shift) as u32) & (((1u32 << w) - 1) as u32) < (1u32 << w)) by (bit_vector)
        requires
            0 < w < 32,
    ;
}

/// Reads the `width`-bit substring of `code` that starts at bit `bit_off`.
pub fn extract_substring(code: &[u8], bit_off: usize, width: usize) -> (r: u32)
    requires
        0 < width <= 22,
        bit_off + width <= 8 * code@.len(),
        bit_off + width + 8 <= usize::MAX,
    ensures
        r == sub_val(code@, bit_off as int, width as int),
        r < pow2(width as nat),
{
    let start_byte = bit_off / 8;
    let bit_in_byte = bit_off % 8;
    let end_bit = bit_off + width;
    let end_byte = (end_bit + 7) / 8;
    let mut acc = 0u64;
    let mut i = start_byte;
    proof {
        assert forall|p: u64| p < 64 implies !bit64(acc, p) by {
            assert(((0u64 >> p) & 1u64) == 0u64) by (bit_vector);
        }
    }
    while i < end_byte
        invariant
            start_byte <= i <= end_byte <= code@.len(),
            end_byte - start_byte <= 4,
            forall|p: u64|
                p < 64 ==> (#[trigger] bit64(acc, p) <==> (p < 8 * (i - start_byte) && bit_at(
                    code@,
                    8 * i - 1 - p,
                ))),
        decreases end_byte - i,
    {
        let byte = code[i];
        let next = (acc << 8u64) | (byte as u64);
        proof {
            assert forall|p: u64| p < 64 implies (#[trigger] bit64(next, p) <==> (p < 8 * (i + 1
                - start_byte) && bit_at(code@, 8 * (i + 1) - 1 - p))) by {
                lemma_shift_in_byte(acc, byte, p);
                if p < 8 {
                    lemma_bit_at_byte(code@, i as int, 7 - p);
                }
            }
        }
        acc = next;
        i = i + 1;
    }
    let total_bits = (end_byte - start_byte) * 8;
    let shift = total_bits - bit_in_byte - width;
    let w = width as u32;
    proof {
        lemma_u32_pow2_no_overflow(width as nat);
        lemma_u32_shl_is_mul(1u32, w);
        lemma_pow2_pos(width as nat);
    }
    let mask: u32 = ((1u32 << w) - 1) as u32;
    let r = ((acc >> (shift as u64)) as u32) & mask;
    proof {
        let v = sub_val(code@, bit_off as int, width as int);
        lemma_sub_val_bits(code@, bit_off as int, width as int);
        lemma_u32_pow2_no_overflow(width as nat);
        lemma_u32_shl_is_mul(1u32, w);
        lemma_window_bits(acc, shift as u64, w, 0);
        assert forall|p: u32| p < width implies (#[trigger] bit32(r, p) <==> bit32(v as u32, p)) by {
            lemma_window_bits(acc, shift as u64, w, p);
            assert(bit64(acc, (p + shift) as u64) <==> bit_at(code@, bit_off + width - 1 - p));
        }
        lemma_eq_from_bits(r, v as u32, width as nat);
    }
    r
}

/// Number of bit positions in `lo..hi` at which `x` and `y` differ.
pub open spec fn diff_count(x: u32, y: u32, lo: int, hi: int) -> nat
    decreases hi - lo,
{
    if hi <= lo {
        0
    } else {
        diff_count(x, y, lo, hi - 1) + if bit32(x, (hi - 1) as u32) != bit32(y, (hi - 1) as u32) {
            1nat
        } else {
            0nat
        }
    }
}

/// Hamming distance between the low `n` bits of `x` and of `y`.
pub open spec fn key_dist(x: u32, y: u32, n: int) -> nat {
    diff_count(x, y, 0, n)
}

/// The lowest position in `lo..hi` at which `x` and `y` differ (`hi` if none).
pub open spec fn lowest_diff(x: u32, y: u32, lo: int, hi: int) -> int
    decreases hi - lo,
{
    if hi <= lo {
        hi
    } else if bit32(x, lo as u32) != bit32(y, lo as u32) {
        lo
    } else {
        lowest_diff(x, y, lo + 1, hi)
    }
}

proof fn lemma_lowest_diff_ge(x: u32, y: u32, lo: int, hi: int)
    requires
        lo <= hi,
    ensures
        lo <= lowest_diff(x, y, lo, hi),
    decreases hi - lo,
{
    if lo < hi {
        lemma_lowest_diff_ge(x, y, lo + 1, hi);
    }
}

pub proof fn lemma_diff_count_split(x: u32, y: u32, lo: int, mid: int, hi: int)
    requires
        lo <= mid <= hi,
    ensures
        diff_count(x, y, lo, hi) == diff_count(x, y, lo, mid) + diff_count(x, y, mid, hi),
    decreases hi - mid,
{
    if mid < hi {
        lemma_diff_count_split(x, y, lo, mid, hi - 1);
    }
}

/// The differing positions of two numbers only depend on their bits in the range.
pub proof fn lemma_diff_count_ext(x: u32, x2: u32, y: u32, lo: int, hi: int)
    requires
        forall|p: u32| lo <= p < hi ==> (#[trigger] bit32(x, p) <==> bit32(x2, p)),
        0 <= lo,
        hi <= 32,
    ensures
        diff_count(x, y, lo, hi) == diff_count(x2, y, lo, hi),
    decreases hi - lo,
{
    if lo < hi {
        lemma_diff_count_ext(x, x2, y, lo, hi - 1);
        assert(bit32(x, (hi - 1) as u32) <==> bit32(x2, (hi - 1) as u32));
    }
}

/// Numbers that differ nowhere in `lo..hi` agree on every bit there.
pub proof fn lemma_diff_count_zero(x: u32, y: u32, lo: int, hi: int)
    requires
        diff_count(x, y, lo, hi) == 0,
        0 <= lo,
        hi <= 32,
    ensures
        forall|p: u32| lo <= p < hi ==> (#[trigger] bit32(x, p) <==> bit32(y, p)),
    decreases hi - lo,
{
    if lo < hi {
        lemma_diff_count_zero(x, y, lo, hi - 1);
    }
}

/// The lowest differing position, and what is left above it.
pub proof fn lemma_lowest_diff(x: u32, y: u32, lo: int, hi: int)
    requires
        diff_count(x, y, lo, hi) >= 1,
        0 <= lo,
        hi <= 32,
    ensures
        lo <= lowest_diff(x, y, lo, hi) < hi,
        bit32(x, lowest_diff(x, y, lo, hi) as u32) != bit32(y, lowest_diff(x, y, lo, hi) as u32),
        forall|p: u32|
            lo <= p < lowest_diff(x, y, lo, hi) ==> (#[trigger] bit32(x, p) <==> bit32(y, p)),
        diff_count(x, y, lo, hi) == 1 + diff_count(x, y, lowest_diff(x, y, lo, hi) + 1, hi),
    decreases hi - lo,
{
    if lo >= hi {
    } else {
        lemma_diff_count_split(x, y, lo, lo + 1, hi);
        assert(diff_count(x, y, lo, lo + 1) == diff_count(x, y, lo, lo) + if bit32(x, lo as u32)
            != bit32(y, lo as u32) {
            1nat
        } else {
            0nat
        });
        if bit32(x, lo as u32) == bit32(y, lo as u32) {
            lemma_lowest_diff(x, y, lo + 1, hi);
            let l = lowest_diff(x, y, lo + 1, hi);
            assert forall|p: u32| lo <= p < l implies (#[trigger] bit32(x, p) <==> bit32(y, p)) by {
                if p > lo {
                    assert(lo + 1 <= p < l);
                }
            }
        }
    }
}

proof fn lemma_flip(key: u32, i: u32, p: u32)
    requires
        i < 32,
        p < 32,
    ensures
        bit32(key ^ (1u32 << i), p) <==> (if p == i {
            !bit32(key, p)
        } else {
            bit32(key, p)
        }),
{
    assert((((key ^ (1u32 << i)) >> p) & 1u32 == 1u32) <==> (if p == i {
        !((key >> p) & 1u32 == 1u32)
    } else {
        (key >> p) & 1u32 == 1u32
    })) by (bit_vector)
        requires
            i < 32,
            p < 32,
    ;
}

/// `x` has no bit set at or above position `w`.
pub open spec fn fits_bits(x: u32, w: u32) -> bool {
    w >= 32 || x < (1u32 << w)
}

proof fn lemma_fits_bits_pow2(x: u32, w: u32)
    requires
        w <= 32,
    ensures
        fits_bits(x, w) <==> x < pow2(w as nat),
{
    vstd::arithmetic::power2::lemma2_to64();
    if w < 32 {
        lemma_u32_pow2_no_overflow(w as nat);
        lemma_u32_shl_is_mul(1u32, w);
    }
}

proof fn lemma_flip_bound(key: u32, i: u32, w: u32)
    requires
        i < w <= 32,
        fits_bits(key, w),
    ensures
        fits_bits(key ^ (1u32 << i), w),
{
    if w < 32 {
        assert(key ^ (1u32 << i) < (1u32 << w)) by (bit_vector)
            requires
                i < w < 32,
                key < (1u32 << w),
        ;
    }
}

proof fn lemma_high_bits_clear(x: u32, w: u32, p: u32)
    requires
        w <= p < 32,
        fits_bits(x, w),
    ensures
        !bit32(x, p),
{
    assert(x < (1u32 << w));
    assert(!((x >> p) & 1u32 == 1u32)) by (bit_vector)
        requires
            w <= p < 32,
            x < (1u32 << w),
    ;
}

/// Numbers that agree on every bit of `lo..hi` differ nowhere there.
pub proof fn lemma_diff_count_agree(x: u32, y: u32, lo: int, hi: int)
    requires
        forall|p: u32| lo <= p < hi ==> (#[trigger] bit32(x, p) <==> bit32(y, p)),
        0 <= lo,
        hi <= 32,
    ensures
        diff_count(x, y, lo, hi) == 0,
    decreases hi - lo,
{
    if lo < hi {
        lemma_diff_count_agree(x, y, lo, hi - 1);
        assert(bit32(x, (hi - 1) as u32) <==> bit32(y, (hi - 1) as u32));
    }
}

/// `t` agrees with `key` outside the bit range `lo..hi` and differs from it
/// in exactly `r` positions inside.
pub open spec fn flip_target(key: u32, t: u32, lo: int, hi: int, r: int) -> bool {
    &&& forall|p: u32| (p < lo || hi <= p < 32) ==> (#[trigger] bit32(t, p) <==> bit32(key, p))
    &&& diff_count(key, t, lo, hi) == r
}

/// A key differs from itself nowhere.
proof fn lemma_flip_target_self(k: u32, lo: int, hi: int)
    requires
        0 <= lo,
        hi <= 32,
    ensures
        flip_target(k, k, lo, hi, 0),
{
    lemma_diff_count_agree(k, k, lo, hi);
}

/// Flipping bit `i` of `key`, then `r - 1` bits of `i + 1..hi`, flips `r`
/// bits of `lo..hi`.
proof fn lemma_flip_extend(key: u32, t: u32, i: u32, lo: int, hi: int, r: int)
    requires
        0 <= lo <= i < hi <= 32,
        1 <= r,
        flip_target(key ^ (1u32 << i), t, i + 1, hi, r - 1),
    ensures
        flip_target(key, t, lo, hi, r),
        diff_count(key, t, lo, i as int) == 0,
        diff_count(key, t, lo, i + 1) == 1,
{
    let k = key ^ (1u32 << i);
    assert forall|p: u32| (p < lo || hi <= p < 32) implies (#[trigger] bit32(t, p) <==> bit32(key, p)) by {
        lemma_flip(key, i, p);
        assert(bit32(t, p) <==> bit32(k, p));
    }
    assert forall|p: u32| lo <= p < i implies (#[trigger] bit32(key, p) <==> bit32(t, p)) by {
        lemma_flip(key, i, p);
        assert(bit32(t, p) <==> bit32(k, p));
    }
    lemma_diff_count_agree(key, t, lo, i as int);
    assert forall|p: u32| i + 1 <= p < hi implies (#[trigger] bit32(key, p) <==> bit32(k, p)) by {
        lemma_flip(key, i, p);
    }
    lemma_diff_count_ext(key, k, t, i + 1, hi);
    lemma_flip(key, i, i);
    assert(bit32(t, i) <==> bit32(k, i));
    assert(diff_count(key, t, i as int, i + 1) == 1) by {
        assert(diff_count(key, t, i as int, i as int) == 0);
    }
    lemma_diff_count_split(key, t, lo, i as int, hi);
    lemma_diff_count_split(key, t, i as int, i + 1, hi);
    lemma_diff_count_split(key, t, lo, i as int, i + 1);
}

/// `key` with `r` of the bits `lo..width` flipped, every choice once, the
/// flipped positions in lexicographic order.
pub open spec fn flips(key: u32, lo: int, width: int, r: nat) -> Seq<u32>
    decreases r, if lo < width { width - lo } else { 0 }, 1int,
{
    if r == 0 {
        seq![key]
    } else {
        flips_from(key, lo, width, width, r)
    }
}

/// The part of `flips(key, lo, width, r)` whose lowest flipped position is
/// below `end`: for each such position `i` in turn, `key` with bit `i` and
/// `r - 1` of the bits `i + 1..width` flipped.
pub open spec fn flips_from(key: u32, lo: int, end: int, width: int, r: nat) -> Seq<u32>
    decreases r, if lo < end { end - lo } else { 0 }, 0int,
{
    if r == 0 || end <= lo {
        Seq::empty()
    } else {
        flips_from(key, lo, end - 1, width, r) + flips(
            key ^ (1u32 << ((end - 1) as u32)),
            end,
            width,
            (r - 1) as nat,
        )
    }
}

/// The keys within `radius` bits of `key` in the order they are listed:
/// `key` itself, then the keys at distance 1, 2, ... up to `radius`.
pub open spec fn neighbors_upto(key: u32, width: int, radius: nat) -> Seq<u32>
    decreases radius,
{
    if radius == 0 {
        seq![key]
    } else {
        neighbors_upto(key, width, (radius - 1) as nat) + flips(key, 0, width, radius)
    }
}

/// Every key of `flips_from(key, lo, end, width, r)` flips `r` bits of
/// `lo..width`, at least one of them below `end`, and no key repeats.
proof fn lemma_flips_from(key: u32, lo: int, end: int, width: int, r: nat)
    requires
        1 <= r,
        0 <= lo <= end <= width <= 32,
    ensures
        forall|j: int|
            0 <= j < flips_from(key, lo, end, width, r).len() ==> #[trigger] flip_target(
                key,
                flips_from(key, lo, end, width, r)[j],
                lo,
                width,
                r as int,
            ) && diff_count(key, flips_from(key, lo, end, width, r)[j], lo, end) >= 1,
        flips_from(key, lo, end, width, r).no_duplicates(),
    decreases r, end - lo,
{
    if end > lo {
        lemma_flips_from(key, lo, end - 1, width, r);
        let i = (end - 1) as u32;
        let k = key ^ (1u32 << i);
        let first = flips_from(key, lo, end - 1, width, r);
        let part = flips(k, end, width, (r - 1) as nat);
        if r >= 2 {
            lemma_flips_from(k, end, width, width, (r - 1) as nat);
            assert(part == flips_from(k, end, width, width, (r - 1) as nat));
            assert forall|j: int| 0 <= j < part.len() implies flip_target(k, part[j], end, width, r - 1) by {
                assert(flip_target(k, flips_from(k, end, width, width, (r - 1) as nat)[j], end, width, (r - 1) as int));
            }
        } else {
            assert(part == seq![k]);
            lemma_flip_target_self(k, end, width);
        }
        assert forall|j: int| 0 <= j < part.len() implies #[trigger] flip_target(key, part[j], lo, width, r as int)
            && diff_count(key, part[j], lo, end - 1) == 0 && diff_count(key, part[j], lo, end) == 1 by {
            assert(flip_target(k, part[j], end, width, r - 1));
            lemma_flip_extend(key, part[j], i, lo, width, r as int);
        }
        assert forall|j: int| 0 <= j < first.len() implies diff_count(key, #[trigger] first[j], lo, end) >= 1 by {
            assert(flip_target(key, first[j], lo, width, r as int));
            lemma_diff_count_split(key, first[j], lo, end - 1, end);
        }
        assert forall|a: int, b: int| 0 <= a < first.len() && 0 <= b < part.len() implies first[a] != part[b] by {
            assert(flip_target(key, first[a], lo, width, r as int));
            assert(diff_count(key, first[a], lo, end - 1) >= 1);
            assert(flip_target(key, part[b], lo, width, r as int));
            assert(diff_count(key, part[b], lo, end - 1) == 0);
        }
        if r >= 2 {
            assert(part.no_duplicates());
        }
        vstd::seq_lib::lemma_no_dup_in_concat(first, part);
        assert(flips_from(key, lo, end, width, r) == first + part);
        let all = flips_from(key, lo, end, width, r);
        assert forall|j: int| 0 <= j < all.len() implies #[trigger] flip_target(
            key,
            all[j],
            lo,
            width,
            r as int,
        ) && diff_count(key, all[j], lo, end) >= 1 by {
            assert(all[j] == (first + part)[j]);
            if j < first.len() {
                assert((first + part)[j] == first[j]);
                assert(flip_target(key, first[j], lo, width, r as int));
            } else {
                assert((first + part)[j] == part[j - first.len()]);
                assert(flip_target(key, part[j - first.len()], lo, width, r as int));
            }
        }
    }
}

/// The keys of `neighbors_upto(key, width, radius)` lie within `radius`
/// bits of `key`, and none repeats.
proof fn lemma_neighbors_upto(key: u32, width: int, radius: nat)
    requires
        0 <= width <= 32,
    ensures
        forall|j: int|
            0 <= j < neighbors_upto(key, width, radius).len() ==> diff_count(
                key,
                #[trigger] neighbors_upto(key, width, radius)[j],
                0,
                width,
            ) <= radius,
        neighbors_upto(key, width, radius).no_duplicates(),
    decreases radius,
{
    if radius == 0 {
        lemma_diff_count_agree(key, key, 0, width);
    } else {
        lemma_neighbors_upto(key, width, (radius - 1) as nat);
        lemma_flips_from(key, 0, width, width, radius);
        let first = neighbors_upto(key, width, (radius - 1) as nat);
        let part = flips(key, 0, width, radius);
        assert(part == flips_from(key, 0, width, width, radius));
        assert forall|j: int| 0 <= j < part.len() implies diff_count(key, #[trigger] part[j], 0, width) == radius by {
            assert(flip_target(key, flips_from(key, 0, width, width, radius)[j], 0, width, radius as int));
        }
        assert forall|a: int, b: int| 0 <= a < first.len() && 0 <= b < part.len() implies first[a] != part[b] by {
            assert(diff_count(key, first[a], 0, width) <= radius - 1);
            assert(diff_count(key, part[b], 0, width) == radius);
        }
        vstd::seq_lib::lemma_no_dup_in_concat(first, part);
        assert(neighbors_upto(key, width, radius) == first + part);
        assert forall|j: int| 0 <= j < (first + part).len() implies diff_count(
            key,
            #[trigger] (first + part)[j],
            0,
            width,
        ) <= radius by {
            if j < first.len() {
                assert((first + part)[j] == first[j]);
            } else {
                assert((first + part)[j] == part[j - first.len()]);
            }
        }
    }
}

/// Appends `key` with every choice of `r` bits flipped among positions
/// `lo..width`, the flipped positions in lexicographic order.
fn push_flips(out: &mut Vec<u32>, key: u32, lo: u32, width: u32, r: u32)
    requires
        1 <= r,
        lo <= width <= 32,
        fits_bits(key, width),
        forall|j: int| 0 <= j < old(out)@.len() ==> fits_bits(old(out)@[j], width),
    ensures
        final(out)@ == old(out)@ + flips(key, lo as int, width as int, r as nat),
        final(out)@.len() >= old(out)@.len(),
        final(out)@.subrange(0, old(out)@.len() as int) == old(out)@,
        forall|j: int| 0 <= j < final(out)@.len() ==> fits_bits(final(out)@[j], width),
        forall|t: u32| flip_target(key, t, lo as int, width as int, r as int) ==> final(out)@.contains(t),
        forall|j: int|
            old(out)@.len() <= j < final(out)@.len() ==> #[trigger] flip_target(
                key,
                final(out)@[j],
                lo as int,
                width as int,
                r as int,
            ),
    decreases r,
{
    let ghost start = out@;
    let mut i = lo;
    proof {
        assert forall|t: u32| flip_target(key, t, lo as int, width as int, r as int) implies lowest_diff(
            key,
            t,
            lo as int,
            width as int,
        ) >= lo by {
            lemma_lowest_diff_ge(key, t, lo as int, width as int);
        }
    }
    while i < width
        invariant
            lo <= i <= width <= 32,
            1 <= r,
            fits_bits(key, width),
            out@ == start + flips_from(key, lo as int, i as int, width as int, r as nat),
            out@.len() >= start.len(),
            out@.subrange(0, start.len() as int) == start,
            forall|j: int| 0 <= j < out@.len() ==> fits_bits(out@[j], width),
            forall|j: int|
                start.len() <= j < out@.len() ==> #[trigger] flip_target(
                    key,
                    out@[j],
                    lo as int,
                    width as int,
                    r as int,
                ),
            forall|t: u32|
                flip_target(key, t, lo as int, width as int, r as int) && lowest_diff(
                    key,
                    t,
                    lo as int,
                    width as int,
                ) < i ==> out@.contains(t),
        decreases width - i,
    {
        let k = key ^ (1u32 << i);
        proof {
            lemma_flip_bound(key, i, width);
        }
        let ghost before = out@;
        if r == 1 {
            out.push(k);
        } else {
            push_flips(out, k, i + 1, width, r - 1);
        }
        proof {
            assert(out@.subrange(0, before.len() as int) == before);
            assert(flips_from(key, lo as int, i + 1, width as int, r as nat) == flips_from(
                key,
                lo as int,
                i as int,
                width as int,
                r as nat,
            ) + flips(k, i + 1, width as int, (r - 1) as nat));
            if r == 1 {
                assert(flips(k, i + 1, width as int, 0) == seq![k]);
                assert(out@ == before.push(k));
            }
            assert(out@ =~= start + flips_from(key, lo as int, i + 1, width as int, r as nat));
            assert forall|j: int| start.len() <= j < out@.len() implies #[trigger] flip_target(
                key,
                out@[j],
                lo as int,
                width as int,
                r as int,
            ) by {
                if j < before.len() {
                    assert(out@[j] == before[j]) by {
                        assert(out@.subrange(0, before.len() as int)[j] == before[j]);
                    }
                } else if r == 1 {
                    assert(out@[j] == k);
                    lemma_flip_target_self(k, i + 1, width as int);
                    lemma_flip_extend(key, k, i, lo as int, width as int, 1);
                } else {
                    lemma_flip_extend(key, out@[j], i, lo as int, width as int, r as int);
                }
            }
            assert(out@.subrange(0, start.len() as int) == start) by {
                assert(out@.subrange(0, start.len() as int) =~= before.subrange(0, start.len() as int));
            }
            assert forall|t: u32|
                flip_target(key, t, lo as int, width as int, r as int) && lowest_diff(
                    key,
                    t,
                    lo as int,
                    width as int,
                ) < i + 1 implies out@.contains(t) by {
                let l = lowest_diff(key, t, lo as int, width as int);
                if l < i {
                    assert(before.contains(t));
                    let j = choose|j: int| 0 <= j < before.len() && before[j] == t;
                    assert(out@[j] == before[j]) by {
                        assert(out@.subrange(0, before.len() as int)[j] == before[j]);
                    }
                } else {
                    lemma_lowest_diff(key, t, lo as int, width as int);
                    assert(l == i);
                    assert forall|p: u32| (p < i + 1 || width <= p < 32) implies (#[trigger] bit32(t, p)
                        <==> bit32(k, p)) by {
                        lemma_flip(key, i, p);
                    }
                    assert forall|p: u32| i + 1 <= p < width implies (#[trigger] bit32(k, p) <==> bit32(key, p)) by {
                        lemma_flip(key, i, p);
                    }
                    lemma_diff_count_ext(k, key, t, i + 1, width as int);
                    if r == 1 {
                        lemma_diff_count_zero(k, t, i + 1, width as int);
                        assert forall|p: u32| p < 32 implies (#[trigger] bit32(t, p) <==> bit32(k, p)) by {
                            if i + 1 <= p < width {
                                assert(bit32(k, p) <==> bit32(t, p));
                            }
                        }
                        vstd::arithmetic::power2::lemma2_to64();
                        lemma_eq_from_bits(t, k, 32);
                        assert(out@[out@.len() - 1] == k);
                    } else {
                        assert(flip_target(k, t, i + 1, width as int, r - 1));
                    }
                }
            }
        }
        i = i + 1;
    }
    proof {
        assert forall|t: u32| flip_target(key, t, lo as int, width as int, r as int) implies out@.contains(t) by {
            lemma_lowest_diff(key, t, lo as int, width as int);
        }
        assert(flips(key, lo as int, width as int, r as nat) == flips_from(
            key,
            lo as int,
            width as int,
            width as int,
            r as nat,
        ));
    }
}

/// Every `width`-bit key (`width` up to 32) within `radius` bits of `key`,
/// each once: the key itself, then the keys at distance 1, 2, ... up to
/// `radius`, each group in lexicographic order of the flipped positions.
pub fn enumerate_neighbors(key: u32, width: u32, radius: u32) -> (out: Vec<u32>)
    requires
        width <= 32,
        key < pow2(width as nat),
        radius <= 4,
    ensures
        out@ == neighbors_upto(key, width as int, radius as nat),
        out@.no_duplicates(),
        forall|j: int| 0 <= j < out@.len() ==> out@[j] < pow2(width as nat),
        forall|j: int| 0 <= j < out@.len() ==> #[trigger] key_dist(key, out@[j], width as int) <= radius,
        forall|t: u32|
            t < pow2(width as nat) && key_dist(key, t, width as int) <= radius ==> out@.contains(t),
{
    proof {
        lemma_fits_bits_pow2(key, width);
    }
    let mut out: Vec<u32> = Vec::new();
    out.push(key);
    proof {
        lemma_diff_count_agree(key, key, 0, width as int);
        assert(out@ =~= neighbors_upto(key, width as int, 0));
    }
    let mut r: u32 = 1;
    while r <= radius
        invariant
            width <= 32,
            radius <= 4,
            1 <= r <= radius + 1,
            fits_bits(key, width),
            out@ == neighbors_upto(key, width as int, (r - 1) as nat),
            out@.len() >= 1,
            out@[0] == key,
            forall|j: int| 0 <= j < out@.len() ==> fits_bits(out@[j], width),
            forall|j: int| 0 <= j < out@.len() ==> #[trigger] key_dist(key, out@[j], width as int) < r,
            forall|t: u32|
                t < pow2(width as nat) && 1 <= key_dist(key, t, width as int) < r ==> out@.contains(t),
        decreases radius + 1 - r,
    {
        let ghost before = out@;
        push_flips(&mut out, key, 0, width, r);
        proof {
            assert(out@ == neighbors_upto(key, width as int, r as nat));
            assert(out@[0] == key) by {
                assert(out@.subrange(0, before.len() as int)[0] == before[0]);
            }
            assert forall|j: int| 0 <= j < out@.len() implies #[trigger] key_dist(key, out@[j], width as int) < r + 1 by {
                if j < before.len() {
                    assert(out@[j] == before[j]) by {
                        assert(out@.subrange(0, before.len() as int)[j] == before[j]);
                    }
                } else {
                    assert(flip_target(key, out@[j], 0, width as int, r as int));
                }
            }
            assert forall|t: u32|
                t < pow2(width as nat) && 1 <= key_dist(key, t, width as int) < r + 1 implies out@.contains(t) by {
                if key_dist(key, t, width as int) < r {
                    assert(before.contains(t));
                    let j = choose|j: int| 0 <= j < before.len() && before[j] == t;
                    assert(out@[j] == before[j]) by {
                        assert(out@.subrange(0, before.len() as int)[j] == before[j]);
                    }
                } else {
                    lemma_fits_bits_pow2(t, width);
                    assert forall|p: u32| (p < 0 || width <= p < 32) implies (#[trigger] bit32(t, p) <==> bit32(key, p)) by {
                        lemma_high_bits_clear(t, width, p);
                        lemma_high_bits_clear(key, width, p);
                    }
                    assert(flip_target(key, t, 0, width as int, r as int));
                }
            }
        }
        r = r + 1;
    }
    proof {
        assert forall|t: u32|
            t < pow2(width as nat) && key_dist(key, t, width as int) <= radius implies out@.contains(t) by {
            if key_dist(key, t, width as int) == 0 {
                lemma_fits_bits_pow2(t, width);
                lemma_diff_count_zero(key, t, 0, width as int);
                assert forall|p: u32| p < 32 implies (#[trigger] bit32(t, p) <==> bit32(key, p)) by {
                    if p >= width {
                        lemma_high_bits_clear(t, width, p);
                        lemma_high_bits_clear(key, width, p);
                    }
                }
                vstd::arithmetic::power2::lemma2_to64();
                lemma_eq_from_bits(t, key, 32);
                assert(out@[0] == t);
            }
        }
        assert forall|j: int| 0 <= j < out@.len() implies out@[j] < pow2(width as nat) by {
            lemma_fits_bits_pow2(out@[j], width);
        }
        lemma_neighbors_upto(key, width as int, radius as nat);
    }
    out
}

proof fn lemma_key_dist_reversed(x: u32, y: u32, a: Seq<u8>, b: Seq<u8>, off: int, w: int)
    requires
        0 <= w <= 32,
        forall|p: u32| p < w ==> (#[trigger] bit32(x, p) <==> bit_at(a, off + w - 1 - p)),
        forall|p: u32| p < w ==> (#[trigger] bit32(y, p) <==> bit_at(b, off + w - 1 - p)),
    ensures
        key_dist(x, y, w) == bits_dist(a, b, off, off + w),
    decreases w,
{
    if w > 0 {
        assert forall|p: u32| p < w - 1 implies (#[trigger] bit32(x, p) <==> bit_at(
            a,
            (off + 1) + (w - 1) - 1 - p,
        )) by {
            assert(bit32(x, p) <==> bit_at(a, off + w - 1 - p));
        }
        assert forall|p: u32| p < w - 1 implies (#[trigger] bit32(y, p) <==> bit_at(
            b,
            (off + 1) + (w - 1) - 1 - p,
        )) by {
            assert(bit32(y, p) <==> bit_at(b, off + w - 1 - p));
        }
        lemma_key_dist_reversed(x, y, a, b, off + 1, w - 1);
        lemma_bits_dist_split(a, b, off, off + 1, off + w);
        assert(bit32(x, (w - 1) as u32) <==> bit_at(a, off));
        assert(bit32(y, (w - 1) as u32) <==> bit_at(b, off));
        assert(bits_dist(a, b, off, off) == 0);
        assert(bits_dist(a, b, off, off + 1) == bit_diff(a, b, off));
        assert(key_dist(x, y, w) == key_dist(x, y, w - 1) + if bit32(x, (w - 1) as u32) != bit32(
            y,
            (w - 1) as u32,
        ) {
            1nat
        } else {
            0nat
        });
    }
}

/// The distance between two substrings, read as numbers, is the number of
/// differing bits in the substring's range.
pub proof fn lemma_sub_val_dist(a: Seq<u8>, b: Seq<u8>, off: int, w: int)
    requires
        0 <= w <= 22,
    ensures
        key_dist(sub_val(a, off, w) as u32, sub_val(b, off, w) as u32, w) == bits_dist(
            a,
            b,
            off,
            off + w,
        ),
{
    lemma_sub_val_bits(a, off, w);
    lemma_sub_val_bits(b, off, w);
    lemma_key_dist_reversed(sub_val(a, off, w) as u32, sub_val(b, off, w) as u32, a, b, off, w);
}

/// Bit distance is symmetric.
pub proof fn lemma_diff_count_symmetric(x: u32, y: u32, lo: int, hi: int)
    ensures
        diff_count(x, y, lo, hi) == diff_count(y, x, lo, hi),
    decreases hi - lo,
{
    if lo < hi {
        lemma_diff_count_symmetric(x, y, lo, hi - 1);
    }
}

} // verus!
