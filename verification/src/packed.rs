//! Hex-string kernels that decode sixteen characters per step, pack the
//! nibble differences of a step into one 64-bit word and count its bits with
//! a single popcount.

use vstd::prelude::*;
use crate::distance::distance_fits;
use crate::hex::{
    all_hex_upto, hex_char_to_nibble, hex_distance, hex_distance_upto, hex_exceeds,
    hex_fails_before_cutoff, nibble, pair_is_hex, char_pair_distance,
    hamming_distance_string_classic, hamming_distance_string_with_max, lemma_nibble_lt16,
    lemma_hex_distance_upto_monotone, ERR_INVALID_HEX,
};
use crate::kernels::{lemma_byte_of_load, popcnt64_native};
use crate::popcount::{byte_of, popcount64, popcount8};

verus! {

/// Decoded characters `v0`, `v1` (first pair) and `v2`, `v3` (second pair),
/// each a nibble or the `0xFF` mark: the high half of their OR is clear
/// exactly when all four are nibbles, and then the two differences packed
/// into one byte keep their bit counts.
proof fn lemma_pack_pair(v0: u8, v1: u8, v2: u8, v3: u8)
    requires
        v0 < 16 || v0 == 0xFF,
        v1 < 16 || v1 == 0xFF,
        v2 < 16 || v2 == 0xFF,
        v3 < 16 || v3 == 0xFF,
    ensures
        ((v0 | v1 | v2 | v3) & 0xF0 == 0) <==> (v0 < 16 && v1 < 16 && v2 < 16 && v3 < 16),
        (v0 | v1 | v2 | v3) & 0xF0 == 0 ==> popcount8(((((v0 ^ v1) & 0x0F) << 4u8) | ((v2 ^ v3)
            & 0x0F)) as u8) == popcount8(v0 ^ v1) + popcount8(v2 ^ v3),
{
    assert(((v0 | v1 | v2 | v3) & 0xF0 == 0) <==> (v0 < 16 && v1 < 16 && v2 < 16 && v3 < 16)
        && ((v0 | v1 | v2 | v3) & 0xF0 == 0 ==> popcount8(((((v0 ^ v1) & 0x0F) << 4u8) | ((v2
        ^ v3) & 0x0F)) as u8) == popcount8(v0 ^ v1) + popcount8(v2 ^ v3))) by (bit_vector)
        requires
            v0 < 16 || v0 == 0xFF,
            v1 < 16 || v1 == 0xFF,
            v2 < 16 || v2 == 0xFF,
            v3 < 16 || v3 == 0xFF,
    ;
}

/// The high half of the OR of eight marks is clear exactly when it is clear
/// in each of them.
proof fn lemma_marks_clear8(m0: u8, m1: u8, m2: u8, m3: u8, m4: u8, m5: u8, m6: u8, m7: u8)
    ensures
        ((m0 | m1 | m2 | m3 | m4 | m5 | m6 | m7) & 0xF0 == 0) <==> (m0 & 0xF0 == 0 && m1 & 0xF0
            == 0 && m2 & 0xF0 == 0 && m3 & 0xF0 == 0 && m4 & 0xF0 == 0 && m5 & 0xF0 == 0 && m6
            & 0xF0 == 0 && m7 & 0xF0 == 0),
{
    assert(((m0 | m1 | m2 | m3 | m4 | m5 | m6 | m7) & 0xF0 == 0) <==> (m0 & 0xF0 == 0 && m1
        & 0xF0 == 0 && m2 & 0xF0 == 0 && m3 & 0xF0 == 0 && m4 & 0xF0 == 0 && m5 & 0xF0 == 0
        && m6 & 0xF0 == 0 && m7 & 0xF0 == 0)) by (bit_vector);
}

/// Bits that differ between the nibbles of the pair at `i`.
pub open spec fn pair_bits(a: Seq<u8>, b: Seq<u8>, i: int) -> nat {
    popcount8(nibble(a[i]) ^ nibble(b[i]))
}

/// What [`packed_pair`] returns for the pairs at `i` and `i + 1`: `mark`
/// has its high half clear exactly when the four characters are hex digits,
/// and then `x` has as many one bits as the two nibble differences.
#[verifier::opaque]
spec fn packed_pair_ok(a: Seq<u8>, b: Seq<u8>, i: int, x: u8, mark: u8) -> bool {
    &&& (mark & 0xF0 == 0) <==> (pair_is_hex(a, b, i) && pair_is_hex(a, b, i + 1))
    &&& mark & 0xF0 == 0 ==> popcount8(x) == pair_bits(a, b, i) + pair_bits(a, b, i + 1)
}

/// The nibble differences of the character pairs at `i` and `i + 1` in one
/// byte (the first one in the high half), and the OR of the four decoded
/// characters, whose high half is set exactly when one is not a hex digit.
fn packed_pair(a: &[u8], b: &[u8], i: usize) -> (r: (u8, u8))
    requires
        i + 2 <= a.len(),
        i + 2 <= b.len(),
    ensures
        packed_pair_ok(a@, b@, i as int, r.0, r.1),
{
    let va0 = hex_char_to_nibble(a[i]);
    let vb0 = hex_char_to_nibble(b[i]);
    let va1 = hex_char_to_nibble(a[i + 1]);
    let vb1 = hex_char_to_nibble(b[i + 1]);
    proof {
        lemma_nibble_lt16(a@[i as int]);
        lemma_nibble_lt16(b@[i as int]);
        lemma_nibble_lt16(a@[i + 1]);
        lemma_nibble_lt16(b@[i + 1]);
        lemma_pack_pair(va0, vb0, va1, vb1);
    }
    let mark = va0 | vb0 | va1 | vb1;
    let packed = (((va0 ^ vb0) & 0x0F) << 4u8) | ((va1 ^ vb1) & 0x0F);
    proof {
        reveal(packed_pair_ok);
    }
    (packed, mark)
}

/// Every pair in `[lo, hi)` holds hex digits.
pub open spec fn all_hex_between(a: Seq<u8>, b: Seq<u8>, lo: int, hi: int) -> bool {
    forall|k: int| lo <= k < hi ==> #[trigger] pair_is_hex(a, b, k)
}

/// Sixteen steps of the hex distance, two pairs at a time.
proof fn lemma_hex_distance16(a: Seq<u8>, b: Seq<u8>, s: int)
    requires
        0 <= s,
        s + 16 <= a.len(),
        s + 16 <= b.len(),
    ensures
        hex_distance_upto(a, b, s + 16) == hex_distance_upto(a, b, s) + (pair_bits(a, b, s)
            + pair_bits(a, b, s + 1)) + (pair_bits(a, b, s + 2) + pair_bits(a, b, s + 3)) + (
        pair_bits(a, b, s + 4) + pair_bits(a, b, s + 5)) + (pair_bits(a, b, s + 6) + pair_bits(
            a,
            b,
            s + 7,
        )) + (pair_bits(a, b, s + 8) + pair_bits(a, b, s + 9)) + (pair_bits(a, b, s + 10)
            + pair_bits(a, b, s + 11)) + (pair_bits(a, b, s + 12) + pair_bits(a, b, s + 13)) + (
        pair_bits(a, b, s + 14) + pair_bits(a, b, s + 15)),
{
    assert(hex_distance_upto(a, b, s + 1) == hex_distance_upto(a, b, s) + pair_bits(a, b, s));
    assert(hex_distance_upto(a, b, s + 2) == hex_distance_upto(a, b, s + 1) + pair_bits(a, b, s + 1));
    assert(hex_distance_upto(a, b, s + 3) == hex_distance_upto(a, b, s + 2) + pair_bits(a, b, s + 2));
    assert(hex_distance_upto(a, b, s + 4) == hex_distance_upto(a, b, s + 3) + pair_bits(a, b, s + 3));
    assert(hex_distance_upto(a, b, s + 5) == hex_distance_upto(a, b, s + 4) + pair_bits(a, b, s + 4));
    assert(hex_distance_upto(a, b, s + 6) == hex_distance_upto(a, b, s + 5) + pair_bits(a, b, s + 5));
    assert(hex_distance_upto(a, b, s + 7) == hex_distance_upto(a, b, s + 6) + pair_bits(a, b, s + 6));
    assert(hex_distance_upto(a, b, s + 8) == hex_distance_upto(a, b, s + 7) + pair_bits(a, b, s + 7));
    assert(hex_distance_upto(a, b, s + 9) == hex_distance_upto(a, b, s + 8) + pair_bits(a, b, s + 8));
    assert(hex_distance_upto(a, b, s + 10) == hex_distance_upto(a, b, s + 9) + pair_bits(a, b, s + 9));
    assert(hex_distance_upto(a, b, s + 11) == hex_distance_upto(a, b, s + 10) + pair_bits(a, b, s + 10));
    assert(hex_distance_upto(a, b, s + 12) == hex_distance_upto(a, b, s + 11) + pair_bits(a, b, s + 11));
    assert(hex_distance_upto(a, b, s + 13) == hex_distance_upto(a, b, s + 12) + pair_bits(a, b, s + 12));
    assert(hex_distance_upto(a, b, s + 14) == hex_distance_upto(a, b, s + 13) + pair_bits(a, b, s + 13));
    assert(hex_distance_upto(a, b, s + 15) == hex_distance_upto(a, b, s + 14) + pair_bits(a, b, s + 14));
    assert(hex_distance_upto(a, b, s + 16) == hex_distance_upto(a, b, s + 15) + pair_bits(a, b, s + 15));
}

/// Pairs `i..i + 16` hold hex digits exactly when each of the eight pairs of
/// pairs does.
proof fn lemma_all_hex16(a: Seq<u8>, b: Seq<u8>, s: int)
    ensures
        all_hex_between(a, b, s, s + 16) <==> (pair_is_hex(a, b, s) && pair_is_hex(a, b, s + 1))
            && (pair_is_hex(a, b, s + 2) && pair_is_hex(a, b, s + 3)) && (pair_is_hex(a, b, s + 4)
            && pair_is_hex(a, b, s + 5)) && (pair_is_hex(a, b, s + 6) && pair_is_hex(a, b, s + 7))
            && (pair_is_hex(a, b, s + 8) && pair_is_hex(a, b, s + 9)) && (pair_is_hex(a, b, s + 10)
            && pair_is_hex(a, b, s + 11)) && (pair_is_hex(a, b, s + 12) && pair_is_hex(
            a,
            b,
            s + 13,
        )) && (pair_is_hex(a, b, s + 14) && pair_is_hex(a, b, s + 15)),
{
    if (pair_is_hex(a, b, s) && pair_is_hex(a, b, s + 1)) && (pair_is_hex(a, b, s + 2)
        && pair_is_hex(a, b, s + 3)) && (pair_is_hex(a, b, s + 4) && pair_is_hex(a, b, s + 5)) && (
    pair_is_hex(a, b, s + 6) && pair_is_hex(a, b, s + 7)) && (pair_is_hex(a, b, s + 8)
        && pair_is_hex(a, b, s + 9)) && (pair_is_hex(a, b, s + 10) && pair_is_hex(a, b, s + 11))
        && (pair_is_hex(a, b, s + 12) && pair_is_hex(a, b, s + 13)) && (pair_is_hex(a, b, s + 14)
        && pair_is_hex(a, b, s + 15)) {
        assert forall|k: int| s <= k < s + 16 implies #[trigger] pair_is_hex(a, b, k) by {
            let j = k - s;
            if j < 4 {
            } else if j < 8 {
            } else if j < 12 {
            } else {
            }
        }
    }
}

/// A word's bit count is the sum of its bytes' bit counts.
proof fn lemma_popcount_bytes(w: u64, x0: u8, x1: u8, x2: u8, x3: u8, x4: u8, x5: u8, x6: u8, x7: u8)
    requires
        byte_of(w, 0) == x0,
        byte_of(w, 1) == x1,
        byte_of(w, 2) == x2,
        byte_of(w, 3) == x3,
        byte_of(w, 4) == x4,
        byte_of(w, 5) == x5,
        byte_of(w, 6) == x6,
        byte_of(w, 7) == x7,
    ensures
        popcount64(w) == popcount8(x0) + popcount8(x1) + popcount8(x2) + popcount8(x3) + popcount8(
            x4,
        ) + popcount8(x5) + popcount8(x6) + popcount8(x7),
{
}

/// The sixteen-character step: the OR of the eight pair marks is clear
/// exactly when all sixteen pairs hold hex digits, and then the packed word
/// has as many one bits as the step adds to the hex distance.
proof fn lemma_packed16(
    a: Seq<u8>,
    b: Seq<u8>,
    s: int,
    w: u64,
    x0: u8, x1: u8, x2: u8, x3: u8, x4: u8, x5: u8, x6: u8, x7: u8,
    m0: u8, m1: u8, m2: u8, m3: u8, m4: u8, m5: u8, m6: u8, m7: u8,
)
    requires
        0 <= s,
        s + 16 <= a.len(),
        s + 16 <= b.len(),
        packed_pair_ok(a, b, s, x0, m0),
        packed_pair_ok(a, b, s + 2, x1, m1),
        packed_pair_ok(a, b, s + 4, x2, m2),
        packed_pair_ok(a, b, s + 6, x3, m3),
        packed_pair_ok(a, b, s + 8, x4, m4),
        packed_pair_ok(a, b, s + 10, x5, m5),
        packed_pair_ok(a, b, s + 12, x6, m6),
        packed_pair_ok(a, b, s + 14, x7, m7),
        w == (x0 as u64) | ((x1 as u64) << 8u64) | ((x2 as u64) << 16u64) | ((x3 as u64) << 24u64)
            | ((x4 as u64) << 32u64) | ((x5 as u64) << 40u64) | ((x6 as u64) << 48u64) | ((
        x7 as u64) << 56u64),
    ensures
        ((m0 | m1 | m2 | m3 | m4 | m5 | m6 | m7) & 0xF0 == 0) <==> all_hex_between(a, b, s, s + 16),
        ((m0 | m1 | m2 | m3 | m4 | m5 | m6 | m7) & 0xF0 == 0) ==> hex_distance_upto(a, b, s + 16)
            == hex_distance_upto(a, b, s) + popcount64(w),
{
    reveal(packed_pair_ok);
    lemma_marks_clear8(m0, m1, m2, m3, m4, m5, m6, m7);
    lemma_all_hex16(a, b, s);
    if (m0 | m1 | m2 | m3 | m4 | m5 | m6 | m7) & 0xF0 == 0 {
        lemma_byte_of_load(w, x0, x1, x2, x3, x4, x5, x6, x7);
        lemma_popcount_bytes(w, x0, x1, x2, x3, x4, x5, x6, x7);
        lemma_hex_distance16(a, b, s);
    }
}

/// The nibble differences of the sixteen pairs at `i..i + 16` packed into
/// one little-endian word, checking all 32 characters at once; `None` if any
/// of them is not a hex digit.
fn packed_xor16(a: &[u8], b: &[u8], i: usize) -> (r: Option<u64>)
    requires
        i + 16 <= a.len(),
        i + 16 <= b.len(),
    ensures
        r is Some <==> all_hex_between(a@, b@, i as int, i + 16),
        r matches Some(w) ==> hex_distance_upto(a@, b@, i + 16) == hex_distance_upto(
            a@,
            b@,
            i as int,
        ) + popcount64(w),
{
    let (x0, m0) = packed_pair(a, b, i);
    let (x1, m1) = packed_pair(a, b, i + 2);
    let (x2, m2) = packed_pair(a, b, i + 4);
    let (x3, m3) = packed_pair(a, b, i + 6);
    let (x4, m4) = packed_pair(a, b, i + 8);
    let (x5, m5) = packed_pair(a, b, i + 10);
    let (x6, m6) = packed_pair(a, b, i + 12);
    let (x7, m7) = packed_pair(a, b, i + 14);
    let w: u64 = (x0 as u64) | ((x1 as u64) << 8u64) | ((x2 as u64) << 16u64) | ((x3 as u64)
        << 24u64) | ((x4 as u64) << 32u64) | ((x5 as u64) << 40u64) | ((x6 as u64) << 48u64) | ((
    x7 as u64) << 56u64);
    proof {
        lemma_packed16(a@, b@, i as int, w, x0, x1, x2, x3, x4, x5, x6, x7, m0, m1, m2, m3, m4, m5, m6, m7);
    }
    if (m0 | m1 | m2 | m3 | m4 | m5 | m6 | m7) & 0xF0 != 0 {
        return None;
    }
    Some(w)
}

/// Bitwise distance between two equal-length hex strings, sixteen characters
/// per step. Strings shorter than 32 characters take the four-character
/// kernel. Fails when a character is not a hex digit.
pub fn hamming_distance_string_packed(a: &[u8], b: &[u8]) -> (r: Result<u64, &'static str>)
    requires
        a.len() == b.len(),
        distance_fits(a.len() as nat),
    ensures
        r is Ok <==> all_hex_upto(a@, b@, a.len() as int),
        r matches Ok(v) ==> v == hex_distance(a@, b@),
        r matches Err(e) ==> e == ERR_INVALID_HEX,
{
    let len = a.len();
    if len < 32 {
        return hamming_distance_string_classic(a, b);
    }
    let mut result: u64 = 0;
    let mut i: usize = 0;
    proof {
        lemma_hex_distance_upto_monotone(a@, b@, 0, len as int);
    }
    while len - i >= 16
        invariant
            i <= len,
            len == a.len(),
            a.len() == b.len(),
            distance_fits(a.len() as nat),
            hex_distance_upto(a@, b@, len as int) <= 4 * len,
            all_hex_upto(a@, b@, i as int),
            result == hex_distance_upto(a@, b@, i as int),
        decreases len - i,
    {
        match packed_xor16(a, b, i) {
            None => {
                return Err(ERR_INVALID_HEX);
            },
            Some(w) => {
                proof {
                    lemma_hex_distance_upto_monotone(a@, b@, i + 16, len as int);
                }
                result = result + popcnt64_native(w);
                i = i + 16;
            },
        }
    }
    while i < len
        invariant
            i <= len,
            len == a.len(),
            a.len() == b.len(),
            distance_fits(a.len() as nat),
            hex_distance_upto(a@, b@, len as int) <= 4 * len,
            all_hex_upto(a@, b@, i as int),
            result == hex_distance_upto(a@, b@, i as int),
        decreases len - i,
    {
        match char_pair_distance(a[i], b[i]) {
            None => {
                proof {
                    assert(!pair_is_hex(a@, b@, i as int));
                }
                return Err(ERR_INVALID_HEX);
            },
            Some(d) => {
                proof {
                    lemma_hex_distance_upto_monotone(a@, b@, i + 1, len as int);
                }
                result = result + d;
                i = i + 1;
            },
        }
    }
    Ok(result)
}

/// End of the stretch the packed scan decodes after its checkpoint at
/// `32 * k`: the next 32-character block, or the rest of the string after the
/// last whole block.
pub open spec fn packed_stretch_end(len: int, k: int) -> int {
    if k < len / 32 {
        32 * (k + 1)
    } else {
        len
    }
}

/// The packed scan with cutoff `max_dist` stops with the sentinel after block
/// `k`: the first `32 * k` characters are hex digits that differ in more
/// than `max_dist` bits.
pub open spec fn packed_stops_at(a: Seq<u8>, b: Seq<u8>, max_dist: u64, k: int) -> bool {
    &&& 1 <= k <= a.len() / 32
    &&& all_hex_upto(a, b, 32 * k)
    &&& hex_distance_upto(a, b, 32 * k) > max_dist
}

/// The packed scan reaches its checkpoint at `32 * k` within the cutoff and
/// finds a character that is not a hex digit in the stretch after it.
pub open spec fn packed_fails_at(a: Seq<u8>, b: Seq<u8>, max_dist: u64, k: int) -> bool {
    &&& 0 <= k <= a.len() / 32
    &&& all_hex_upto(a, b, 32 * k)
    &&& hex_distance_upto(a, b, 32 * k) <= max_dist
    &&& !all_hex_upto(a, b, packed_stretch_end(a.len() as int, k))
}

/// [`hamming_distance_string_packed_with_max`] ends with the `u64::MAX`
/// sentinel. Under 32 characters the scan checks the cutoff after every
/// character; otherwise after every 32-character block and once at the end.
pub open spec fn packed_exceeds(a: Seq<u8>, b: Seq<u8>, max_dist: u64) -> bool {
    if a.len() < 32 {
        hex_exceeds(a, b, max_dist)
    } else {
        ||| exists|k: int| #[trigger] packed_stops_at(a, b, max_dist, k)
        ||| all_hex_upto(a, b, a.len() as int) && hex_distance(a, b) > max_dist
    }
}

/// [`hamming_distance_string_packed_with_max`] meets a character that is not
/// a hex digit before it stops with the sentinel.
pub open spec fn packed_fails(a: Seq<u8>, b: Seq<u8>, max_dist: u64) -> bool {
    if a.len() < 32 {
        hex_fails_before_cutoff(a, b, max_dist)
    } else {
        exists|k: int| #[trigger] packed_fails_at(a, b, max_dist, k)
    }
}

/// Hex-string distance with a cutoff checked after every 32 characters:
/// `Ok(u64::MAX)` once the distance of the blocks read so far (or of the
/// whole string) exceeds `max_dist`, `Err` for a character that is not a hex
/// digit in a block read before that. A block is decoded whole before its
/// bits are counted. Strings shorter than 32 characters take the
/// character-by-character scan.
pub fn hamming_distance_string_packed_with_max(a: &[u8], b: &[u8], max_dist: u64) -> (r: Result<
    u64,
    &'static str,
>)
    requires
        a.len() == b.len(),
        distance_fits(a.len() as nat),
    ensures
        r is Err <==> packed_fails(a@, b@, max_dist),
        r matches Err(e) ==> e == ERR_INVALID_HEX,
        r == Ok::<u64, &'static str>(u64::MAX) <==> packed_exceeds(a@, b@, max_dist),
        r matches Ok(v) ==> (v != u64::MAX ==> all_hex_upto(a@, b@, a.len() as int) && v
            == hex_distance(a@, b@) && v <= max_dist),
{
    let len = a.len();
    if len < 32 {
        return hamming_distance_string_with_max(a, b, max_dist);
    }
    let ghost ha = a@;
    let ghost hb = b@;
    let mut difference: u64 = 0;
    let mut i: usize = 0;
    let ghost mut k: int = 0;
    proof {
        lemma_hex_distance_upto_monotone(ha, hb, 0, len as int);
    }
    while len - i >= 32
        invariant
            i <= len,
            i == 32 * k,
            0 <= k <= len / 32,
            len >= 32,
            len == a.len(),
            a.len() == b.len(),
            ha == a@,
            hb == b@,
            distance_fits(a.len() as nat),
            hex_distance_upto(ha, hb, len as int) <= 4 * len,
            all_hex_upto(ha, hb, i as int),
            difference == hex_distance_upto(ha, hb, i as int),
            difference <= max_dist,
        decreases len - i,
    {
        let lo = packed_xor16(a, b, i);
        let hi = packed_xor16(a, b, i + 16);
        match (lo, hi) {
            (Some(wl), Some(wh)) => {
                proof {
                    lemma_hex_distance_upto_monotone(ha, hb, i + 32, len as int);
                    assert(all_hex_upto(ha, hb, i + 32)) by {
                        assert forall|j: int| 0 <= j < i + 32 implies pair_is_hex(ha, hb, j) by {
                            if j >= i + 16 {
                                assert(all_hex_between(ha, hb, i + 16, i + 32));
                            } else if j >= i {
                                assert(all_hex_between(ha, hb, i as int, i + 16));
                            }
                        }
                    }
                }
                difference = difference + popcnt64_native(wl);
                difference = difference + popcnt64_native(wh);
                i = i + 32;
                proof {
                    k = k + 1;
                }
                if difference > max_dist {
                    proof {
                        assert(packed_stops_at(ha, hb, max_dist, k));
                        lemma_not_packed_fails(ha, hb, max_dist, k);
                    }
                    return Ok(u64::MAX);
                }
            },
            _ => {
                proof {
                    assert(!all_hex_upto(ha, hb, i + 32)) by {
                        if all_hex_upto(ha, hb, i + 32) {
                            assert(all_hex_between(ha, hb, i as int, i + 16));
                            assert(all_hex_between(ha, hb, i + 16, i + 32));
                        }
                    }
                    assert(packed_fails_at(ha, hb, max_dist, k));
                    lemma_not_packed_exceeds(ha, hb, max_dist, k);
                }
                return Err(ERR_INVALID_HEX);
            },
        }
    }
    let ghost checkpoint: int = i as int;
    if len - i >= 16 {
        match packed_xor16(a, b, i) {
            None => {
                proof {
                    assert(!all_hex_upto(ha, hb, len as int)) by {
                        if all_hex_upto(ha, hb, len as int) {
                            assert(all_hex_between(ha, hb, i as int, i + 16));
                        }
                    }
                    assert(packed_fails_at(ha, hb, max_dist, k));
                    lemma_not_packed_exceeds(ha, hb, max_dist, k);
                }
                return Err(ERR_INVALID_HEX);
            },
            Some(w) => {
                proof {
                    lemma_hex_distance_upto_monotone(ha, hb, i + 16, len as int);
                    assert forall|j: int| 0 <= j < i + 16 implies pair_is_hex(ha, hb, j) by {
                        if j >= i {
                            assert(all_hex_between(ha, hb, i as int, i + 16));
                        }
                    }
                }
                difference = difference + popcnt64_native(w);
                i = i + 16;
            },
        }
    }
    while i < len
        invariant
            checkpoint <= i <= len,
            checkpoint == 32 * k,
            k == len / 32,
            len >= 32,
            len == a.len(),
            a.len() == b.len(),
            ha == a@,
            hb == b@,
            distance_fits(a.len() as nat),
            hex_distance_upto(ha, hb, len as int) <= 4 * len,
            all_hex_upto(ha, hb, i as int),
            difference == hex_distance_upto(ha, hb, i as int),
            hex_distance_upto(ha, hb, checkpoint) <= max_dist,
        decreases len - i,
    {
        match char_pair_distance(a[i], b[i]) {
            None => {
                proof {
                    assert(!pair_is_hex(ha, hb, i as int));
                    lemma_all_hex_prefix(ha, hb, checkpoint, i as int);
                    assert(packed_fails_at(ha, hb, max_dist, k));
                    lemma_not_packed_exceeds(ha, hb, max_dist, k);
                }
                return Err(ERR_INVALID_HEX);
            },
            Some(d) => {
                proof {
                    lemma_hex_distance_upto_monotone(ha, hb, i + 1, len as int);
                }
                difference = difference + d;
                i = i + 1;
            },
        }
    }
    proof {
        lemma_not_packed_fails(ha, hb, max_dist, k);
    }
    if difference > max_dist {
        Ok(u64::MAX)
    } else {
        proof {
            lemma_hex_distance_upto_monotone(ha, hb, checkpoint, len as int);
            lemma_not_packed_exceeds(ha, hb, max_dist, k);
        }
        Ok(difference)
    }
}

/// A prefix of an all-hex prefix is all hex.
proof fn lemma_all_hex_prefix(a: Seq<u8>, b: Seq<u8>, m: int, n: int)
    requires
        m <= n,
        all_hex_upto(a, b, n),
    ensures
        all_hex_upto(a, b, m),
{
}

/// The packed scan does not end with the sentinel when it reaches its
/// checkpoint at `c = 32 * kc` within the cutoff and the stretch after it
/// either holds a character that is not a hex digit or ends the string
/// within the cutoff.
proof fn lemma_not_packed_exceeds(a: Seq<u8>, b: Seq<u8>, max_dist: u64, kc: int)
    requires
        a.len() >= 32,
        0 <= kc <= a.len() / 32,
        all_hex_upto(a, b, 32 * kc),
        hex_distance_upto(a, b, 32 * kc) <= max_dist,
        !all_hex_upto(a, b, packed_stretch_end(a.len() as int, kc)) || (packed_stretch_end(
            a.len() as int,
            kc,
        ) == a.len() && hex_distance(a, b) <= max_dist),
    ensures
        !packed_exceeds(a, b, max_dist),
{
    let e = packed_stretch_end(a.len() as int, kc);
    assert forall|k: int| !#[trigger] packed_stops_at(a, b, max_dist, k) by {
        if packed_stops_at(a, b, max_dist, k) {
            if k <= kc {
                lemma_hex_distance_upto_monotone(a, b, 32 * k, 32 * kc);
            } else {
                lemma_all_hex_prefix(a, b, e, 32 * k);
            }
        }
    }
    if all_hex_upto(a, b, a.len() as int) {
        lemma_all_hex_prefix(a, b, e, a.len() as int);
    }
}

/// The packed scan meets no bad character before it ends with the sentinel
/// at checkpoint `32 * kc`, nor when the whole string holds hex digits.
proof fn lemma_not_packed_fails(a: Seq<u8>, b: Seq<u8>, max_dist: u64, kc: int)
    requires
        a.len() >= 32,
        0 <= kc <= a.len() / 32,
        all_hex_upto(a, b, 32 * kc),
        hex_distance_upto(a, b, 32 * kc) > max_dist || all_hex_upto(a, b, a.len() as int),
    ensures
        !packed_fails(a, b, max_dist),
{
    assert forall|j: int| !#[trigger] packed_fails_at(a, b, max_dist, j) by {
        if packed_fails_at(a, b, max_dist, j) {
            let e = packed_stretch_end(a.len() as int, j);
            if all_hex_upto(a, b, a.len() as int) {
                lemma_all_hex_prefix(a, b, e, a.len() as int);
            } else if j < kc {
                lemma_all_hex_prefix(a, b, e, 32 * kc);
            } else {
                lemma_hex_distance_upto_monotone(a, b, 32 * kc, 32 * j);
            }
        }
    }
}

} // verus!
