//! ASCII hexadecimal digits and the distance between hex strings.

use vstd::prelude::*;
use crate::popcount::popcount8;
use crate::distance::distance_fits;

verus! {

/// Error reported when a hex string holds a character that is not a hex digit.
pub const ERR_INVALID_HEX: &'static str = "hex string contains invalid char";

/// The value of an ASCII hex digit (either case), or `None` for any other byte.
pub open spec fn hex_value(c: u8) -> Option<u8> {
    if 48 <= c <= 57 {
        Some((c - 48) as u8)
    } else if 65 <= c <= 70 {
        Some((c - 55) as u8)
    } else if 97 <= c <= 102 {
        Some((c - 87) as u8)
    } else {
        None
    }
}

pub open spec fn is_hex(c: u8) -> bool {
    hex_value(c) is Some
}

/// The nibble a hex digit stands for (0 for non-digits, which are never counted).
pub open spec fn nibble(c: u8) -> u8 {
    match hex_value(c) {
        Some(v) => v,
        None => 0,
    }
}

/// Position `i` holds a hex digit in both strings.
pub open spec fn pair_is_hex(a: Seq<u8>, b: Seq<u8>, i: int) -> bool {
    is_hex(a[i]) && is_hex(b[i])
}

/// Every position before `n` holds hex digits in both strings.
pub open spec fn all_hex_upto(a: Seq<u8>, b: Seq<u8>, n: int) -> bool {
    forall|i: int| 0 <= i < n ==> pair_is_hex(a, b, i)
}

/// Bits that differ between the nibbles of the first `n` characters.
pub open spec fn hex_distance_upto(a: Seq<u8>, b: Seq<u8>, n: int) -> nat
    decreases n,
{
    if n <= 0 {
        0
    } else {
        hex_distance_upto(a, b, n - 1) + popcount8(nibble(a[n - 1]) ^ nibble(b[n - 1]))
    }
}

/// Bitwise distance between two hex strings of the length of `a`.
pub open spec fn hex_distance(a: Seq<u8>, b: Seq<u8>) -> nat {
    hex_distance_upto(a, b, a.len() as int)
}

/// Hex character to nibble; `0xFF` marks a character that is not a hex digit.
pub fn hex_char_to_nibble(c: u8) -> (r: u8)
    ensures
        r == (match hex_value(c) {
            Some(v) => v,
            None => 0xFFu8,
        }),
{
    if 48 <= c && c <= 57 {
        // '0'..='9'
        c - 48
    } else if 65 <= c && c <= 70 {
        // 'A'..='F'
        c - 55
    } else if 97 <= c && c <= 102 {
        // 'a'..='f'
        c - 87
    } else {
        0xFF
    }
}

/// Numeric value (0-15) of a hex character, or `None` if it is not a hex digit.
pub fn hex_char_to_val(c: u8) -> (r: Option<u8>)
    ensures
        r == hex_value(c),
{
    let val = hex_char_to_nibble(c);
    if val == 0xFF {
        None
    } else {
        Some(val)
    }
}

/// Set bits of each 4-bit value.
pub const LOOKUP: [u8; 16] = [0, 1, 1, 2, 1, 2, 2, 3, 1, 2, 2, 3, 2, 3, 3, 4];

/// Set bits of a nibble, read from `LOOKUP`.
pub fn nibble_popcount(x: u8) -> (r: u8)
    requires
        x < 16,
    ensures
        r == popcount8(x),
        r <= 4,
{
    let r = LOOKUP[x as usize];
    proof {
        assert(x < 16 ==> popcount8(x) == (if x == 0 { 0u8 } else if x == 1 { 1u8 } else if x == 2 {
            1u8
        } else if x == 3 { 2u8 } else if x == 4 { 1u8 } else if x == 5 { 2u8 } else if x == 6 {
            2u8
        } else if x == 7 { 3u8 } else if x == 8 { 1u8 } else if x == 9 { 2u8 } else if x == 10 {
            2u8
        } else if x == 11 { 3u8 } else if x == 12 { 2u8 } else if x == 13 { 3u8 } else if x == 14 {
            3u8
        } else { 4u8 })) by (bit_vector);
        assert(LOOKUP@ =~= seq![0u8, 1, 1, 2, 1, 2, 2, 3, 1, 2, 2, 3, 2, 3, 3, 4]);
    }
    r
}


proof fn lemma_nibble_popcount_le(x: u8)
    requires
        x < 16,
    ensures
        popcount8(x) <= 4,
{
    assert(x < 16 ==> popcount8(x) <= 4) by (bit_vector);
}

pub proof fn lemma_nibble_lt16(c: u8)
    ensures
        nibble(c) < 16,
        is_hex(c) ==> hex_value(c) == Some(nibble(c)),
{
}

pub proof fn lemma_hex_distance_upto_monotone(a: Seq<u8>, b: Seq<u8>, m: int, n: int)
    requires
        m <= n,
    ensures
        hex_distance_upto(a, b, m) <= hex_distance_upto(a, b, n),
        m >= 0 ==> hex_distance_upto(a, b, n) - hex_distance_upto(a, b, m) <= 4 * (n - m),
    decreases n - m,
{
    if m < n {
        lemma_hex_distance_upto_monotone(a, b, m, n - 1);
        lemma_nibble_lt16(a[n - 1]);
        lemma_nibble_lt16(b[n - 1]);
        lemma_xor_nibbles(nibble(a[n - 1]), nibble(b[n - 1]));
        lemma_nibble_popcount_le(nibble(a[n - 1]) ^ nibble(b[n - 1]));
    }
}

/// A string is at distance zero from itself.
pub proof fn lemma_hex_distance_self(a: Seq<u8>, n: int)
    ensures
        hex_distance_upto(a, a, n) == 0,
    decreases n,
{
    if n > 0 {
        lemma_hex_distance_self(a, n - 1);
        lemma_nibble_lt16(a[n - 1]);
        lemma_xor_nibbles(nibble(a[n - 1]), nibble(a[n - 1]));
    }
}

/// Bits that differ between the nibbles of two characters; `None` when either
/// is not a hex digit.
pub fn char_pair_distance(x: u8, y: u8) -> (r: Option<u64>)
    ensures
        r is Some <==> is_hex(x) && is_hex(y),
        r matches Some(d) ==> d == popcount8(nibble(x) ^ nibble(y)) && d <= 4,
{
    let v1 = hex_char_to_nibble(x);
    let v2 = hex_char_to_nibble(y);
    if (v1 | v2) & 0xF0 != 0 {
        proof {
            lemma_invalid_mark2(v1, v2);
        }
        None
    } else {
        proof {
            lemma_invalid_mark2(v1, v2);
            lemma_xor_nibbles(v1, v2);
        }
        Some(nibble_popcount(v1 ^ v2) as u64)
    }
}

proof fn lemma_invalid_mark2(v1: u8, v2: u8)
    requires
        v1 < 16 || v1 == 0xFF,
        v2 < 16 || v2 == 0xFF,
    ensures
        ((v1 | v2) & 0xF0 == 0) <==> (v1 < 16 && v2 < 16),
{
    assert(((v1 | v2) & 0xF0 == 0) <==> (v1 < 16 && v2 < 16)) by (bit_vector)
        requires
            v1 < 16 || v1 == 0xFF,
            v2 < 16 || v2 == 0xFF,
    ;
}

proof fn lemma_invalid_mark8(v0: u8, v1: u8, v2: u8, v3: u8, v4: u8, v5: u8, v6: u8, v7: u8)
    requires
        v0 < 16 || v0 == 0xFF,
        v1 < 16 || v1 == 0xFF,
        v2 < 16 || v2 == 0xFF,
        v3 < 16 || v3 == 0xFF,
        v4 < 16 || v4 == 0xFF,
        v5 < 16 || v5 == 0xFF,
        v6 < 16 || v6 == 0xFF,
        v7 < 16 || v7 == 0xFF,
    ensures
        ((v0 | v1 | v2 | v3 | v4 | v5 | v6 | v7) & 0xF0 == 0) <==> (v0 < 16 && v1 < 16 && v2 < 16
            && v3 < 16 && v4 < 16 && v5 < 16 && v6 < 16 && v7 < 16),
{
    assert(((v0 | v1 | v2 | v3 | v4 | v5 | v6 | v7) & 0xF0 == 0) <==> (v0 < 16 && v1 < 16 && v2
        < 16 && v3 < 16 && v4 < 16 && v5 < 16 && v6 < 16 && v7 < 16)) by (bit_vector)
        requires
            v0 < 16 || v0 == 0xFF,
            v1 < 16 || v1 == 0xFF,
            v2 < 16 || v2 == 0xFF,
            v3 < 16 || v3 == 0xFF,
            v4 < 16 || v4 == 0xFF,
            v5 < 16 || v5 == 0xFF,
            v6 < 16 || v6 == 0xFF,
            v7 < 16 || v7 == 0xFF,
    ;
}

proof fn lemma_xor_nibbles(v1: u8, v2: u8)
    requires
        v1 < 16,
        v2 < 16,
    ensures
        v1 ^ v2 < 16,
        v2 ^ v1 == v1 ^ v2,
        popcount8(v1 ^ v1) == 0,
{
    assert(v1 ^ v2 < 16 && v2 ^ v1 == v1 ^ v2 && popcount8(v1 ^ v1) == 0) by (bit_vector)
        requires
            v1 < 16,
            v2 < 16,
    ;
}

/// Distance of the four character pairs at `i..i + 4`, checking all eight
/// characters at once; `None` if any of them is not a hex digit.
pub fn block_distance4(a: &[u8], b: &[u8], i: usize) -> (r: Option<u64>)
    requires
        i + 4 <= a.len(),
        i + 4 <= b.len(),
    ensures
        r is Some <==> (pair_is_hex(a@, b@, i as int) && pair_is_hex(a@, b@, i + 1)
            && pair_is_hex(a@, b@, i + 2) && pair_is_hex(a@, b@, i + 3)),
        r matches Some(d) ==> hex_distance_upto(a@, b@, i + 4) == hex_distance_upto(
            a@,
            b@,
            i as int,
        ) + d,
{
    let v1_0 = hex_char_to_nibble(a[i]);
    let v2_0 = hex_char_to_nibble(b[i]);
    let v1_1 = hex_char_to_nibble(a[i + 1]);
    let v2_1 = hex_char_to_nibble(b[i + 1]);
    let v1_2 = hex_char_to_nibble(a[i + 2]);
    let v2_2 = hex_char_to_nibble(b[i + 2]);
    let v1_3 = hex_char_to_nibble(a[i + 3]);
    let v2_3 = hex_char_to_nibble(b[i + 3]);
    let invalid = (v1_0 | v2_0 | v1_1 | v2_1 | v1_2 | v2_2 | v1_3 | v2_3) & 0xF0;
    proof {
        lemma_invalid_mark8(v1_0, v2_0, v1_1, v2_1, v1_2, v2_2, v1_3, v2_3);
    }
    if invalid != 0 {
        return None;
    }
    proof {
        lemma_xor_nibbles(v1_0, v2_0);
        lemma_xor_nibbles(v1_1, v2_1);
        lemma_xor_nibbles(v1_2, v2_2);
        lemma_xor_nibbles(v1_3, v2_3);
    }
    let d0 = nibble_popcount(v1_0 ^ v2_0) as u64;
    let d1 = nibble_popcount(v1_1 ^ v2_1) as u64;
    let d2 = nibble_popcount(v1_2 ^ v2_2) as u64;
    let d3 = nibble_popcount(v1_3 ^ v2_3) as u64;
    proof {
        assert(hex_distance_upto(a@, b@, i + 1) == hex_distance_upto(a@, b@, i as int) + d0);
        assert(hex_distance_upto(a@, b@, i + 2) == hex_distance_upto(a@, b@, i + 1) + d1);
        assert(hex_distance_upto(a@, b@, i + 3) == hex_distance_upto(a@, b@, i + 2) + d2);
        assert(hex_distance_upto(a@, b@, i + 4) == hex_distance_upto(a@, b@, i + 3) + d3);
    }
    Some(d0 + d1 + d2 + d3)
}

/// Bitwise distance between two equal-length hex strings, four characters at
/// a time. Fails on the first block holding a character that is not a hex
/// digit.
pub fn hamming_distance_string_classic(a: &[u8], b: &[u8]) -> (r: Result<u64, &'static str>)
    requires
        a.len() == b.len(),
        distance_fits(a.len() as nat),
    ensures
        r is Ok <==> all_hex_upto(a@, b@, a.len() as int),
        r matches Ok(v) ==> v == hex_distance(a@, b@),
        r matches Err(e) ==> e == ERR_INVALID_HEX,
{
    let len = a.len();
    let mut result: u64 = 0;
    let mut i: usize = 0;
    proof {
        lemma_hex_distance_upto_monotone(a@, b@, 0, len as int);
    }
    while len - i >= 4
        invariant
            i <= len,
            len == a.len(),
            a.len() == b.len(),
            distance_fits(a.len() as nat),
            hex_distance_upto(a@, b@, len as int) <= 4 * len,
            all_hex_upto(a@, b@, i as int),
            result == hex_distance_upto(a@, b@, i as int),
        decreases len - i,
    {
        match block_distance4(a, b, i) {
            None => {
                proof {
                    if all_hex_upto(a@, b@, len as int) {
                        assert(pair_is_hex(a@, b@, i as int));
                        assert(pair_is_hex(a@, b@, i + 1));
                        assert(pair_is_hex(a@, b@, i + 2));
                        assert(pair_is_hex(a@, b@, i + 3));
                    }
                }
                return Err(ERR_INVALID_HEX);
            },
            Some(d) => {
                proof {
                    lemma_hex_distance_upto_monotone(a@, b@, i + 4, len as int);
                }
                result = result + d;
            },
        }
        i = i + 4;
    }
    while i < len
        invariant
            i <= len,
            len == a.len(),
            a.len() == b.len(),
            distance_fits(a.len() as nat),
            hex_distance_upto(a@, b@, len as int) <= 4 * len,
            all_hex_upto(a@, b@, i as int),
            result == hex_distance_upto(a@, b@, i as int),
        decreases len - i,
    {
        match char_pair_distance(a[i], b[i]) {
            None => {
                proof {
                    if all_hex_upto(a@, b@, len as int) {
                        assert(pair_is_hex(a@, b@, i as int));
                    }
                }
                return Err(ERR_INVALID_HEX);
            },
            Some(d) => {
                proof {
                    lemma_hex_distance_upto_monotone(a@, b@, i + 1, len as int);
                }
                result = result + d;
                i = i + 1;
            },
        }
    }
    Ok(result)
}


/// The scan of two hex strings with cutoff `max_dist` stops with the
/// `u64::MAX` sentinel: some all-hex prefix already differs in more than
/// `max_dist` bits.
pub open spec fn hex_exceeds(a: Seq<u8>, b: Seq<u8>, max_dist: u64) -> bool {
    exists|k: int|
        0 <= k <= a.len() && all_hex_upto(a, b, k) && #[trigger] hex_distance_upto(a, b, k)
            > max_dist
}

/// The scan of two hex strings with cutoff `max_dist` meets a character that
/// is not a hex digit before the cutoff is exceeded.
pub open spec fn hex_fails_before_cutoff(a: Seq<u8>, b: Seq<u8>, max_dist: u64) -> bool {
    exists|j: int|
        0 <= j < a.len() && !pair_is_hex(a, b, j) && all_hex_upto(a, b, j)
            && #[trigger] hex_distance_upto(a, b, j) <= max_dist
}

/// Hex-string distance with early exit: `Ok(u64::MAX)` as soon as the running
/// distance exceeds `max_dist`, `Err` for a non-hex character met before that.
pub fn hamming_distance_string_with_max(a: &[u8], b: &[u8], max_dist: u64) -> (r: Result<
    u64,
    &'static str,
>)
    requires
        a.len() == b.len(),
        distance_fits(a.len() as nat),
    ensures
        r is Err <==> hex_fails_before_cutoff(a@, b@, max_dist),
        r matches Err(e) ==> e == ERR_INVALID_HEX,
        r == Ok::<u64, &'static str>(u64::MAX) <==> hex_exceeds(a@, b@, max_dist),
        r matches Ok(v) ==> (v != u64::MAX ==> all_hex_upto(a@, b@, a.len() as int) && v
            == hex_distance(a@, b@) && v <= max_dist),
{
    let length = a.len();
    let mut difference: u64 = 0;
    let mut i: usize = 0;
    proof {
        lemma_hex_distance_upto_monotone(a@, b@, 0, length as int);
    }
    while i < length
        invariant
            i <= length,
            length == a.len(),
            a.len() == b.len(),
            distance_fits(a.len() as nat),
            hex_distance_upto(a@, b@, length as int) <= 4 * length,
            all_hex_upto(a@, b@, i as int),
            difference == hex_distance_upto(a@, b@, i as int),
            difference <= max_dist,
        decreases length - i,
    {
        match char_pair_distance(a[i], b[i]) {
            None => {
                proof {
                    assert(hex_fails_before_cutoff(a@, b@, max_dist)) by {
                        assert(hex_distance_upto(a@, b@, i as int) <= max_dist);
                    }
                    lemma_not_exceeds(a@, b@, max_dist, i as int);
                }
                return Err(ERR_INVALID_HEX);
            },
            Some(d) => {
                proof {
                    lemma_hex_distance_upto_monotone(a@, b@, i + 1, length as int);
                }
                difference = difference + d;
                i = i + 1;
                if difference > max_dist {
                    proof {
                        assert(all_hex_upto(a@, b@, i as int));
                        assert(hex_exceeds(a@, b@, max_dist)) by {
                            assert(hex_distance_upto(a@, b@, i as int) > max_dist);
                        }
                        lemma_no_failure_before(a@, b@, max_dist, i as int);
                    }
                    return Ok(u64::MAX);
                }
            },
        }
    }
    proof {
        lemma_not_exceeds(a@, b@, max_dist, length as int);
        assert(!hex_fails_before_cutoff(a@, b@, max_dist));
    }
    Ok(difference)
}

/// No all-hex prefix exceeds the cutoff when the prefix up to the first bad
/// position `j` (or the end) stays within it.
proof fn lemma_not_exceeds(a: Seq<u8>, b: Seq<u8>, max_dist: u64, j: int)
    requires
        0 <= j <= a.len(),
        all_hex_upto(a, b, j),
        j < a.len() ==> !pair_is_hex(a, b, j),
        hex_distance_upto(a, b, j) <= max_dist,
    ensures
        !hex_exceeds(a, b, max_dist),
{
    assert forall|k: int|
        0 <= k <= a.len() && all_hex_upto(a, b, k) implies #[trigger] hex_distance_upto(a, b, k)
        <= max_dist by {
        if k > j {
            assert(pair_is_hex(a, b, j));
        }
        lemma_hex_distance_upto_monotone(a, b, k, j);
    }
}

/// No bad position lies within the all-hex prefix of length `k`, so no failure
/// can come before a cutoff reached there.
proof fn lemma_no_failure_before(a: Seq<u8>, b: Seq<u8>, max_dist: u64, k: int)
    requires
        0 <= k <= a.len(),
        all_hex_upto(a, b, k),
        hex_distance_upto(a, b, k) > max_dist,
    ensures
        !hex_fails_before_cutoff(a, b, max_dist),
{
    assert forall|j: int|
        0 <= j < a.len() && !pair_is_hex(a, b, j) && all_hex_upto(a, b, j) implies #[trigger] hex_distance_upto(a, b, j)
        > max_dist by {
        if j < k {
            assert(pair_is_hex(a, b, j));
        }
        lemma_hex_distance_upto_monotone(a, b, k, j);
    }
}

} // verus!
