//! The first-generation interface: the byte and hex-string distance
//! functions of the `hexhamming_rs` module, with their own hex decoder.

use vstd::prelude::*;
use vstd::string::StringSliceAdditionalSpecFns;
use crate::algo::{Arch, CpuFeatures};
use crate::distance::{distance_fits, hamming, lemma_distance_upto_bounds};
use crate::hex::{
    all_hex_upto, hex_distance, hex_distance_upto, hex_value, is_hex, nibble, nibble_popcount, pair_is_hex,
    lemma_hex_distance_upto_monotone,
};
use crate::popcount::popcount8;
use crate::records::{record, record_count, record_distance};
use crate::scan::{lemma_bounded_result, record_slice, Kernel};
use crate::distance::distance_upto;
use crate::kernels::{byte_distance_classic, byte_distance_native, word_distance_classic, word_distance_native};
use crate::hex::char_pair_distance;

verus! {

pub const ERR_INVALID_CHAR: &'static str = "hex string contains invalid char";
pub const ERR_SSE41_UNAVAILABLE: &'static str = "SSE4.1 not available, use fallback";
pub const ERR_SSE41_ARCH: &'static str = "SSE4.1 not available on this architecture";

/// `x - y` on bytes, wrapping around.
pub open spec fn wrapping_sub8(x: u8, y: u8) -> u8 {
    if x >= y {
        (x - y) as u8
    } else {
        (x + 256 - y) as u8
    }
}

/// The decoder's raw value: above `'9'` the character's case bit is cleared
/// and 55 subtracted, otherwise `'0'` is subtracted, both wrapping. For a hex
/// digit this is its value.
pub open spec fn legacy_raw(c: u8) -> u8 {
    if c > 57 {
        wrapping_sub8(c & 0xDF, 55)
    } else {
        wrapping_sub8(c, 48)
    }
}

/// A character the decoder accepts: a hex digit, in either case.
pub open spec fn legacy_ok(c: u8) -> bool {
    is_hex(c)
}

/// Both characters at `i` are accepted by the decoder.
pub open spec fn legacy_pair_ok(a: Seq<u8>, b: Seq<u8>, i: int) -> bool {
    legacy_ok(a[i]) && legacy_ok(b[i])
}

pub open spec fn legacy_all_ok(a: Seq<u8>, b: Seq<u8>, n: int) -> bool {
    forall|i: int| 0 <= i < n ==> legacy_pair_ok(a, b, i)
}

/// Bits that differ between the decoded nibbles of the first `n` characters.
pub open spec fn legacy_distance_upto(a: Seq<u8>, b: Seq<u8>, n: int) -> nat
    decreases n,
{
    if n <= 0 {
        0
    } else {
        legacy_distance_upto(a, b, n - 1) + popcount8(
            (legacy_raw(a[n - 1]) ^ legacy_raw(b[n - 1])) & 0xF,
        )
    }
}

/// The decoder's raw value, before it is checked.
fn hex_char_to_nibble_unchecked(c: u8) -> (r: u8)
    ensures
        r == legacy_raw(c),
{
    if c > 57 {
        (c & 0xDF).wrapping_sub(55)
    } else {
        c.wrapping_sub(48)
    }
}

/// Only hex digits map into `0..16` and are accepted: below `'9'` the raw
/// value says so alone, above it the case-folded character must also be a
/// letter, since `'@'` and `` '`' `` fold onto `0..16` as well.
proof fn lemma_raw_of_hex(c: u8)
    ensures
        (legacy_raw(c) <= 15 && (c <= 57 || c & 0xDF >= 65)) <==> is_hex(c),
        is_hex(c) ==> hex_value(c) == Some(legacy_raw(c)),
{
    if c > 57 {
        assert((c & 0xDF) <= c && ((65 <= (c & 0xDF) && (c & 0xDF) <= 70) <==> ((65 <= c && c <= 70)
            || (97 <= c && c <= 102))) && (65 <= c && c <= 70 ==> (c & 0xDF) == c) && (97 <= c
            && c <= 102 ==> (c & 0xDF) == c - 32)) by (bit_vector)
            requires
                c > 57,
        ;
    }
}

/// The decoder, `None` for a character that is not a hex digit.
fn hex_char_to_nibble_fast(c: u8) -> (r: Option<u8>)
    ensures
        r == hex_value(c),
        r is Some <==> legacy_ok(c),
        r matches Some(v) ==> v == legacy_raw(c),
{
    let result = hex_char_to_nibble_unchecked(c);
    proof {
        lemma_raw_of_hex(c);
    }
    if result <= 15 && (c <= 57 || c & 0xDF >= 65) {
        Some(result)
    } else {
        None
    }
}

proof fn lemma_legacy_step(x: u8, y: u8)
    requires
        x <= 15,
        y <= 15,
    ensures
        x ^ y < 16,
        (x ^ y) & 0xF == x ^ y,
        popcount8(x ^ y) <= 4,
        y ^ x == x ^ y,
{
    assert(x ^ y < 16 && (x ^ y) & 0xF == x ^ y && popcount8(x ^ y) <= 4 && y ^ x == x ^ y)
        by (bit_vector)
        requires
            x <= 15,
            y <= 15,
    ;
}

proof fn lemma_legacy_distance_monotone(a: Seq<u8>, b: Seq<u8>, m: int, n: int)
    requires
        0 <= m <= n,
    ensures
        legacy_distance_upto(a, b, m) <= legacy_distance_upto(a, b, n),
        legacy_distance_upto(a, b, n) - legacy_distance_upto(a, b, m) <= 4 * (n - m),
    decreases n - m,
{
    if m < n {
        lemma_legacy_distance_monotone(a, b, m, n - 1);
        let x = legacy_raw(a[n - 1]) ^ legacy_raw(b[n - 1]);
        assert(popcount8(x & 0xF) <= 4) by (bit_vector);
    }
}

/// Hex-string distance with this module's decoder, comparing the characters of
/// `a` with the first as many of `b`.
fn hamming_distance_string_classic(a: &[u8], b: &[u8]) -> (r: Result<u64, &'static str>)
    requires
        a.len() <= b.len(),
        distance_fits(a.len() as nat),
    ensures
        r is Ok <==> legacy_all_ok(a@, b@, a.len() as int),
        r matches Ok(v) ==> v == legacy_distance_upto(a@, b@, a.len() as int),
        r matches Err(e) ==> e == ERR_INVALID_CHAR,
{
    let len = a.len();
    let mut result: u64 = 0;
    let mut i: usize = 0;
    proof {
        lemma_legacy_distance_monotone(a@, b@, 0, len as int);
    }
    while i < len
        invariant
            i <= len,
            len == a.len(),
            a.len() <= b.len(),
            distance_fits(a.len() as nat),
            legacy_distance_upto(a@, b@, len as int) <= 4 * len,
            legacy_all_ok(a@, b@, i as int),
            result == legacy_distance_upto(a@, b@, i as int),
        decreases len - i,
    {
        let (val1, val2) = match (hex_char_to_nibble_fast(a[i]), hex_char_to_nibble_fast(b[i])) {
            (Some(v1), Some(v2)) => (v1, v2),
            _ => {
                proof {
                    if legacy_all_ok(a@, b@, len as int) {
                        assert(legacy_pair_ok(a@, b@, i as int));
                    }
                }
                return Err(ERR_INVALID_CHAR);
            },
        };
        proof {
            lemma_raw_of_hex(a@[i as int]);
            lemma_raw_of_hex(b@[i as int]);
            lemma_legacy_step(val1, val2);
            lemma_legacy_distance_monotone(a@, b@, i + 1, len as int);
        }
        result = result + nibble_popcount(val1 ^ val2) as u64;
        i = i + 1;
    }
    Ok(result)
}

/// On hex digits, in either case, the first-generation decoder counts exactly
/// the bits in which the decoded nibbles differ: its distance is the hex
/// distance, and so does not depend on which of the two strings comes first.
pub proof fn law_legacy_distance_is_hex_distance(a: Seq<u8>, b: Seq<u8>, n: int)
    requires
        0 <= n <= a.len(),
        n <= b.len(),
        legacy_all_ok(a, b, n),
    ensures
        legacy_distance_upto(a, b, n) == hex_distance_upto(a, b, n),
        legacy_distance_upto(a, b, n) == legacy_distance_upto(b, a, n),
    decreases n,
{
    if n > 0 {
        assert(legacy_pair_ok(a, b, n - 1));
        law_legacy_distance_is_hex_distance(a, b, n - 1);
        lemma_raw_of_hex(a[n - 1]);
        lemma_raw_of_hex(b[n - 1]);
        lemma_legacy_step(legacy_raw(a[n - 1]), legacy_raw(b[n - 1]));
    }
}

/// Distance between two hex strings (`b` at least
/// as long as `a`).
pub fn hamming_distance_string_impl(a: &str, b: &str) -> (r: Result<u64, &'static str>)
    requires
        a.spec_bytes().len() <= b.spec_bytes().len(),
        distance_fits(a.spec_bytes().len() as nat),
    ensures
        r is Ok <==> legacy_all_ok(a.spec_bytes(), b.spec_bytes(), a.spec_bytes().len() as int),
        r matches Ok(v) ==> v == legacy_distance_upto(
            a.spec_bytes(),
            b.spec_bytes(),
            a.spec_bytes().len() as int,
        ),
        r matches Err(e) ==> e == ERR_INVALID_CHAR,
        r matches Ok(v) ==> v == hex_distance_upto(
            a.spec_bytes(),
            b.spec_bytes(),
            a.spec_bytes().len() as int,
        ),
{
    let r = hamming_distance_string_classic(a.as_bytes(), b.as_bytes());
    proof {
        if r is Ok {
            law_legacy_distance_is_hex_distance(
                a.spec_bytes(),
                b.spec_bytes(),
                a.spec_bytes().len() as int,
            );
        }
    }
    r
}

/// Bitwise distance of `a` and the first `a.len()` bytes of `b`.
pub fn hamming_distance_bytes_impl(a: &[u8], b: &[u8]) -> (r: u64)
    requires
        a.len() <= b.len(),
        distance_fits(a.len() as nat),
    ensures
        r == hamming(a@, b@),
{
    let b_head = vstd::slice::slice_subrange(b, 0, a.len());
    let d = Kernel::Native.distance(a, b_head, -1);
    proof {
        lemma_bounded_result(a@, b_head@, -1i64);
        crate::distance::lemma_distance_upto_ext(a@, b_head@, a@, b@, a.len() as int);
    }
    d
}

/// Equal byte sequences.
pub fn bytes_equal(a: &[u8], b: &[u8]) -> (r: bool)
    ensures
        r == (a@ == b@),
{
    if a.len() != b.len() {
        return false;
    }
    let mut i: usize = 0;
    while i < a.len()
        invariant
            i <= a.len(),
            a.len() == b.len(),
            forall|j: int| 0 <= j < i ==> a@[j] == b@[j],
        decreases a.len() - i,
    {
        if a[i] != b[i] {
            return false;
        }
        i = i + 1;
    }
    assert(a@ =~= b@);
    true
}

/// Answer of the first-generation `set_algo` to a name it does not know.
pub const ERR_UNKNOWN_LEGACY_ALGORITHM: &'static str = "Library was built without this algorithm.";

/// Backend names the first-generation `set_algo` accepts. It keeps no
/// choice: every name it knows selects the same code.
pub open spec fn legacy_algorithm_known(name: Seq<u8>) -> bool {
    ||| name == "extra".spec_bytes()
    ||| name == "native".spec_bytes()
    ||| name == "sse41".spec_bytes()
    ||| name == "classic".spec_bytes()
}

/// The first-generation `set_algo`: an empty message for a known backend
/// name (case-sensitive), [`ERR_UNKNOWN_LEGACY_ALGORITHM`] otherwise.
pub fn legacy_set_algo(name: &str) -> (r: &'static str)
    ensures
        r == (if legacy_algorithm_known(name.spec_bytes()) {
            ""
        } else {
            ERR_UNKNOWN_LEGACY_ALGORITHM
        }),
{
    let n = name.as_bytes();
    if bytes_equal(n, "extra".as_bytes()) || bytes_equal(n, "native".as_bytes()) || bytes_equal(
        n,
        "sse41".as_bytes(),
    ) || bytes_equal(n, "classic".as_bytes()) {
        ""
    } else {
        ERR_UNKNOWN_LEGACY_ALGORITHM
    }
}

/// The scan of `a` against `b` with cutoff `max_dist` exceeds it
/// while every character so far was accepted.
pub open spec fn legacy_exceeds(a: Seq<u8>, b: Seq<u8>, max_dist: u64) -> bool {
    exists|k: int|
        0 <= k <= a.len() && legacy_all_ok(a, b, k) && #[trigger] legacy_distance_upto(a, b, k)
            > max_dist
}

/// The scan meets a character that is not a hex digit before exceeding the
/// cutoff.
pub open spec fn legacy_fails_before_cutoff(a: Seq<u8>, b: Seq<u8>, max_dist: u64) -> bool {
    exists|j: int|
        0 <= j < a.len() && !legacy_pair_ok(a, b, j) && legacy_all_ok(a, b, j)
            && #[trigger] legacy_distance_upto(a, b, j) <= max_dist
}

/// Whether two hex strings are within `max_dist` bits (early exit). Identical strings are within any distance.
pub fn check_hexstrings_within_dist_impl(a: &str, b: &str, max_dist: u64) -> (r: Result<
    bool,
    &'static str,
>)
    requires
        a.spec_bytes().len() <= b.spec_bytes().len(),
        distance_fits(a.spec_bytes().len() as nat),
    ensures
        a.spec_bytes() == b.spec_bytes() ==> r == Ok::<bool, &'static str>(true),
        a.spec_bytes() != b.spec_bytes() ==> {
            &&& r is Err <==> legacy_fails_before_cutoff(a.spec_bytes(), b.spec_bytes(), max_dist)
            &&& r matches Err(e) ==> e == ERR_INVALID_CHAR
            &&& r == Ok::<bool, &'static str>(false) <==> legacy_exceeds(
                a.spec_bytes(),
                b.spec_bytes(),
                max_dist,
            )
        },
{
    let a_bytes = a.as_bytes();
    let b_bytes = b.as_bytes();
    if bytes_equal(a_bytes, b_bytes) {
        return Ok(true);
    }
    let len = a_bytes.len();
    let mut result: u64 = 0;
    let mut i: usize = 0;
    proof {
        lemma_legacy_distance_monotone(a_bytes@, b_bytes@, 0, len as int);
    }
    while i < len
        invariant
            i <= len,
            len == a_bytes.len(),
            a_bytes.len() <= b_bytes.len(),
            a_bytes@ == a.spec_bytes(),
            b_bytes@ == b.spec_bytes(),
            a_bytes@ != b_bytes@,
            distance_fits(len as nat),
            legacy_distance_upto(a_bytes@, b_bytes@, len as int) <= 4 * len,
            legacy_all_ok(a_bytes@, b_bytes@, i as int),
            result == legacy_distance_upto(a_bytes@, b_bytes@, i as int),
            result <= max_dist,
        decreases len - i,
    {
        let val1 = match hex_char_to_nibble_fast(a_bytes[i]) {
            Some(v) => v,
            None => {
                proof {
                    lemma_legacy_no_exceed(a_bytes@, b_bytes@, max_dist, i as int);
                }
                return Err(ERR_INVALID_CHAR);
            },
        };
        let val2 = match hex_char_to_nibble_fast(b_bytes[i]) {
            Some(v) => v,
            None => {
                proof {
                    lemma_legacy_no_exceed(a_bytes@, b_bytes@, max_dist, i as int);
                }
                return Err(ERR_INVALID_CHAR);
            },
        };
        proof {
            lemma_legacy_step(val1, val2);
            lemma_legacy_distance_monotone(a_bytes@, b_bytes@, i + 1, len as int);
        }
        result = result + nibble_popcount(val1 ^ val2) as u64;
        i = i + 1;
        if result > max_dist {
            proof {
                assert(legacy_exceeds(a_bytes@, b_bytes@, max_dist)) by {
                    assert(legacy_distance_upto(a_bytes@, b_bytes@, i as int) > max_dist);
                }
                assert forall|j: int|
                    0 <= j < len && !legacy_pair_ok(a_bytes@, b_bytes@, j) && legacy_all_ok(
                        a_bytes@,
                        b_bytes@,
                        j,
                    ) implies #[trigger] legacy_distance_upto(a_bytes@, b_bytes@, j) > max_dist by {
                    if j < i {
                        assert(legacy_pair_ok(a_bytes@, b_bytes@, j));
                    }
                    lemma_legacy_distance_monotone(a_bytes@, b_bytes@, i as int, j);
                }
            }
            return Ok(false);
        }
    }
    proof {
        lemma_legacy_no_exceed(a_bytes@, b_bytes@, max_dist, len as int);
    }
    Ok(true)
}

proof fn lemma_legacy_no_exceed(a: Seq<u8>, b: Seq<u8>, max_dist: u64, j: int)
    requires
        0 <= j <= a.len(),
        legacy_all_ok(a, b, j),
        j < a.len() ==> !legacy_pair_ok(a, b, j),
        legacy_distance_upto(a, b, j) <= max_dist,
    ensures
        !legacy_exceeds(a, b, max_dist),
        j < a.len() ==> legacy_fails_before_cutoff(a, b, max_dist),
        j == a.len() ==> !legacy_fails_before_cutoff(a, b, max_dist),
{
    assert forall|k: int|
        0 <= k <= a.len() && legacy_all_ok(a, b, k) implies #[trigger] legacy_distance_upto(
        a,
        b,
        k,
    ) <= max_dist by {
        if k > j {
            assert(legacy_pair_ok(a, b, j));
        }
        lemma_legacy_distance_monotone(a, b, k, j);
    }
    if j < a.len() {
        assert(legacy_distance_upto(a, b, j) <= max_dist);
    }
}

/// Index of the first of records `0..n` within `max_dist` bits of `query`.
pub open spec fn first_within_u64(big: Seq<u8>, query: Seq<u8>, max_dist: u64, n: int) -> Option<
    int,
>
    decreases n,
{
    if n <= 0 {
        None
    } else {
        match first_within_u64(big, query, max_dist, n - 1) {
            Some(i) => Some(i),
            None => if record_distance(big, query, n - 1) <= max_dist {
                Some(n - 1)
            } else {
                None
            },
        }
    }
}

/// Record `i` is the lowest-index one of records `0..n` within `max_dist` bits
/// of `query`.
pub open spec fn lowest_within_u64(big: Seq<u8>, query: Seq<u8>, max_dist: u64, n: int, i: int) -> bool {
    0 <= i < n && record_distance(big, query, i) <= max_dist && forall|j: int|
        0 <= j < i ==> #[trigger] record_distance(big, query, j) > max_dist
}

/// The first-generation scan finds the lowest-index record within
/// `max_dist` bits of the query, and finds nothing exactly when every record
/// differs in more than `max_dist` bits.
pub proof fn law_first_within_is_lowest(big: Seq<u8>, query: Seq<u8>, max_dist: u64, n: int)
    requires
        0 <= n,
    ensures
        forall|i: int|
            #[trigger] lowest_within_u64(big, query, max_dist, n, i) <==> first_within_u64(
                big,
                query,
                max_dist,
                n,
            ) == Some(i),
        first_within_u64(big, query, max_dist, n) is None <==> forall|j: int|
            0 <= j < n ==> #[trigger] record_distance(big, query, j) > max_dist,
    decreases n,
{
    if n > 0 {
        law_first_within_is_lowest(big, query, max_dist, n - 1);
        assert forall|i: int|
            #[trigger] lowest_within_u64(big, query, max_dist, n, i) <==> first_within_u64(
                big,
                query,
                max_dist,
                n,
            ) == Some(i) by {
            assert(lowest_within_u64(big, query, max_dist, n - 1, i) <==> first_within_u64(
                big,
                query,
                max_dist,
                n - 1,
            ) == Some(i));
            if let Some(i0) = first_within_u64(big, query, max_dist, n - 1) {
                assert(lowest_within_u64(big, query, max_dist, n - 1, i0));
            }
        }
        if first_within_u64(big, query, max_dist, n - 1) is Some {
            let i0 = first_within_u64(big, query, max_dist, n - 1)->0;
            assert(lowest_within_u64(big, query, max_dist, n - 1, i0));
            assert(record_distance(big, query, i0) <= max_dist);
        }
    }
}

/// Index of the first `elem_to_compare`-sized record of `array_of_elems`
/// within `max_dist` bits, as an `i32` (the index wraps past `i32::MAX`), or
/// -1 when there is none.
pub fn check_bytes_arrays_within_dist_impl(
    array_of_elems: &[u8],
    elem_to_compare: &[u8],
    max_dist: u64,
) -> (r: i32)
    requires
        elem_to_compare.len() > 0,
        distance_fits(elem_to_compare.len() as nat),
    ensures
        r == (match first_within_u64(
            array_of_elems@,
            elem_to_compare@,
            max_dist,
            record_count(array_of_elems@, elem_to_compare.len() as int),
        ) {
            Some(i) => i as i32,
            None => -1i32,
        }),
        forall|i: int|
            lowest_within_u64(
                array_of_elems@,
                elem_to_compare@,
                max_dist,
                record_count(array_of_elems@, elem_to_compare.len() as int),
                i,
            ) ==> r == i as i32,
        (forall|j: int|
            0 <= j < record_count(array_of_elems@, elem_to_compare.len() as int) ==> #[trigger] record_distance(
                array_of_elems@,
                elem_to_compare@,
                j,
            ) > max_dist) ==> r == -1i32,
{
    proof {
        law_first_within_is_lowest(
            array_of_elems@,
            elem_to_compare@,
            max_dist,
            record_count(array_of_elems@, elem_to_compare.len() as int),
        );
    }
    let elem_size = elem_to_compare.len();
    let num_elements = array_of_elems.len() / elem_size;
    let mut i: usize = 0;
    while i < num_elements
        invariant
            i <= num_elements,
            elem_size == elem_to_compare.len(),
            elem_size > 0,
            distance_fits(elem_size as nat),
            num_elements == record_count(array_of_elems@, elem_size as int),
            first_within_u64(array_of_elems@, elem_to_compare@, max_dist, i as int) is None,
        decreases num_elements - i,
    {
        let elem = record_slice(array_of_elems, elem_size, i);
        let distance = hamming_distance_bytes_impl(elem, elem_to_compare);
        if distance <= max_dist {
            proof {
                law_first_within_is_lowest(
                    array_of_elems@,
                    elem_to_compare@,
                    max_dist,
                    num_elements as int,
                );
                lemma_first_within_u64_stable(
                    array_of_elems@,
                    elem_to_compare@,
                    max_dist,
                    i + 1,
                    num_elements as int,
                );
            }
            return i as i32;
        }
        i = i + 1;
    }
    -1
}

/// Once found, the first match stays the first match of longer prefixes.
proof fn lemma_first_within_u64_stable(big: Seq<u8>, query: Seq<u8>, max_dist: u64, m: int, n: int)
    requires
        0 <= m <= n,
    ensures
        first_within_u64(big, query, max_dist, m) is Some ==> first_within_u64(
            big,
            query,
            max_dist,
            n,
        ) == first_within_u64(big, query, max_dist, m),
    decreases n - m,
{
    if m < n {
        lemma_first_within_u64_stable(big, query, max_dist, m, n - 1);
    }
}

/// Whether the SSE4.1 kernels can run: an x86-64 processor that has SSE4.1.
pub fn has_sse41(cpu: &CpuFeatures) -> (r: bool)
    ensures
        r == (cpu.arch == Arch::X86_64 && cpu.sse41),
{
    match cpu.arch {
        Arch::X86_64 => cpu.sse41,
        _ => false,
    }
}

/// Whether the AVX2 kernels can run: an x86-64 processor that has AVX2.
pub fn has_avx2(cpu: &CpuFeatures) -> (r: bool)
    ensures
        r == (cpu.arch == Arch::X86_64 && cpu.avx2),
{
    match cpu.arch {
        Arch::X86_64 => cpu.avx2,
        _ => false,
    }
}

/// Bitwise distance of `a` and the first `a.len()` bytes of `b` on an x86-64
/// processor: sixteen bytes per step, each half counted with the processor's
/// popcount, when SSE4.1 is available; otherwise eight bytes per step with
/// the bit-parallel count.
pub fn hamming_distance_bytes_sse41(a: &[u8], b: &[u8], cpu: &CpuFeatures) -> (r: u64)
    requires
        cpu.arch == Arch::X86_64,
        a.len() <= b.len(),
        distance_fits(a.len() as nat),
    ensures
        r == hamming(a@, b@),
{
    let len = a.len();
    let mut result: u64 = 0;
    let mut i: usize = 0;
    proof {
        lemma_distance_upto_bounds(a@, b@, len as int);
        crate::distance::lemma_distance_upto_monotone(a@, b@, 0, len as int);
    }
    if has_sse41(cpu) {
        while len - i >= 16
            invariant
                i <= len,
                len == a.len(),
                a.len() <= b.len(),
                distance_upto(a@, b@, len as int) <= 8 * len,
                8 * len <= i64::MAX,
                result == distance_upto(a@, b@, i as int),
            decreases len - i,
        {
            let low = word_distance_native(a, b, i);
            let high = word_distance_native(a, b, i + 8);
            proof {
                crate::distance::lemma_distance_upto_monotone(a@, b@, i + 16, len as int);
            }
            result = result + low + high;
            i = i + 16;
        }
        while i < len
            invariant
                i <= len,
                len == a.len(),
                a.len() <= b.len(),
                distance_upto(a@, b@, len as int) <= 8 * len,
                8 * len <= i64::MAX,
                result == distance_upto(a@, b@, i as int),
            decreases len - i,
        {
            let d = byte_distance_native(a[i], b[i]);
            proof {
                crate::distance::lemma_distance_upto_monotone(a@, b@, i + 1, len as int);
            }
            result = result + d;
            i = i + 1;
        }
    } else {
        while len - i >= 8
            invariant
                i <= len,
                len == a.len(),
                a.len() <= b.len(),
                distance_upto(a@, b@, len as int) <= 8 * len,
                8 * len <= i64::MAX,
                result == distance_upto(a@, b@, i as int),
            decreases len - i,
        {
            let d = word_distance_classic(a, b, i);
            proof {
                crate::distance::lemma_distance_upto_monotone(a@, b@, i + 8, len as int);
            }
            result = result + d;
            i = i + 8;
        }
        while i < len
            invariant
                i <= len,
                len == a.len(),
                a.len() <= b.len(),
                distance_upto(a@, b@, len as int) <= 8 * len,
                8 * len <= i64::MAX,
                result == distance_upto(a@, b@, i as int),
            decreases len - i,
        {
            let d = byte_distance_classic(a[i], b[i]);
            proof {
                crate::distance::lemma_distance_upto_monotone(a@, b@, i + 1, len as int);
            }
            result = result + d;
            i = i + 1;
        }
    }
    result
}

/// Nibble table of the AVX2 kernel: `4 + popcount(k)`.
pub const AVX2_LOOKUP_POS: [u8; 16] = [4, 5, 5, 6, 5, 6, 6, 7, 5, 6, 6, 7, 6, 7, 7, 8];
/// Nibble table of the AVX2 kernel: `4 - popcount(k)`.
pub const AVX2_LOOKUP_NEG: [u8; 16] = [4, 3, 3, 2, 3, 2, 2, 1, 3, 2, 2, 1, 2, 1, 1, 0];

proof fn lemma_nibble_split(x: u8)
    ensures
        popcount8(x) == popcount8(x & 15u8) + popcount8(x >> 4u8),
        x & 15u8 < 16,
        x >> 4u8 < 16,
{
    assert(popcount8(x) == popcount8(x & 15u8) + popcount8(x >> 4u8) && x & 15u8 < 16 && x >> 4u8
        < 16) by (bit_vector);
}

/// Bits set in `x`, the way the AVX2 kernel counts them: the difference of
/// the two nibble tables (a sum of absolute differences in the vector code).
fn avx2_byte_popcount(x: u8) -> (r: u64)
    ensures
        r == popcount8(x),
        r <= 8,
{
    let lo = x & 15u8;
    let hi = x >> 4u8;
    proof {
        lemma_nibble_split(x);
    }
    let pos = AVX2_LOOKUP_POS[lo as usize];
    let neg = AVX2_LOOKUP_NEG[hi as usize];
    proof {
        assert(AVX2_LOOKUP_POS@ =~= seq![4u8, 5, 5, 6, 5, 6, 6, 7, 5, 6, 6, 7, 6, 7, 7, 8]);
        assert(AVX2_LOOKUP_NEG@ =~= seq![4u8, 3, 3, 2, 3, 2, 2, 1, 3, 2, 2, 1, 2, 1, 1, 0]);
        assert(crate::hex::LOOKUP@ =~= seq![0u8, 1, 1, 2, 1, 2, 2, 3, 1, 2, 2, 3, 2, 3, 3, 4]);
        assert(lo < 16 ==> popcount8(lo) == (if lo == 0 { 0u8 } else if lo == 1 { 1u8 } else if lo == 2 {
            1u8
        } else if lo == 3 { 2u8 } else if lo == 4 { 1u8 } else if lo == 5 { 2u8 } else if lo == 6 {
            2u8
        } else if lo == 7 { 3u8 } else if lo == 8 { 1u8 } else if lo == 9 { 2u8 } else if lo == 10 {
            2u8
        } else if lo == 11 { 3u8 } else if lo == 12 { 2u8 } else if lo == 13 { 3u8 } else if lo == 14 {
            3u8
        } else { 4u8 })) by (bit_vector);
        assert(hi < 16 ==> popcount8(hi) == (if hi == 0 { 0u8 } else if hi == 1 { 1u8 } else if hi == 2 {
            1u8
        } else if hi == 3 { 2u8 } else if hi == 4 { 1u8 } else if hi == 5 { 2u8 } else if hi == 6 {
            2u8
        } else if hi == 7 { 3u8 } else if hi == 8 { 1u8 } else if hi == 9 { 2u8 } else if hi == 10 {
            2u8
        } else if hi == 11 { 3u8 } else if hi == 12 { 2u8 } else if hi == 13 { 3u8 } else if hi == 14 {
            3u8
        } else { 4u8 })) by (bit_vector);
        assert(pos == 4 + popcount8(lo));
        assert(neg == 4 - popcount8(hi));
    }
    (pos as u64) - (neg as u64)
}

/// Bitwise distance of `a` and the first `a.len()` bytes of `b` on an x86-64
/// processor: 32 bytes per step with the nibble-table count when AVX2 is
/// available; otherwise the SSE4.1 kernel.
pub fn hamming_distance_bytes_avx2(a: &[u8], b: &[u8], cpu: &CpuFeatures) -> (r: u64)
    requires
        cpu.arch == Arch::X86_64,
        a.len() <= b.len(),
        distance_fits(a.len() as nat),
    ensures
        r == hamming(a@, b@),
{
    if !has_avx2(cpu) {
        return hamming_distance_bytes_sse41(a, b, cpu);
    }
    let len = a.len();
    let mut result: u64 = 0;
    let mut i: usize = 0;
    proof {
        lemma_distance_upto_bounds(a@, b@, len as int);
    }
    while len - i >= 32
        invariant
            i <= len,
            len == a.len(),
            a.len() <= b.len(),
            distance_upto(a@, b@, len as int) <= 8 * len,
            8 * len <= i64::MAX,
            result == distance_upto(a@, b@, i as int),
        decreases len - i,
    {
        let mut j: usize = 0;
        while j < 32
            invariant
                i + 32 <= len,
                len == a.len(),
                a.len() <= b.len(),
                distance_upto(a@, b@, len as int) <= 8 * len,
                8 * len <= i64::MAX,
                j <= 32,
                result == distance_upto(a@, b@, i + j),
            decreases 32 - j,
        {
            let d = avx2_byte_popcount(a[i + j] ^ b[i + j]);
            proof {
                crate::distance::lemma_distance_upto_monotone(a@, b@, i + j + 1, len as int);
            }
            result = result + d;
            j = j + 1;
        }
        i = i + 32;
    }
    while i < len
        invariant
            i <= len,
            len == a.len(),
            a.len() <= b.len(),
            distance_upto(a@, b@, len as int) <= 8 * len,
            8 * len <= i64::MAX,
            result == distance_upto(a@, b@, i as int),
        decreases len - i,
    {
        let d = byte_distance_native(a[i], b[i]);
        proof {
            crate::distance::lemma_distance_upto_monotone(a@, b@, i + 1, len as int);
        }
        result = result + d;
        i = i + 1;
    }
    result
}

/// Bitwise distance of the hex string `a` and the first `a.len()` characters
/// of `b` (either case), sixteen characters per step, when SSE4.1 is
/// available. Fails on any character that is not a hex digit, and without
/// SSE4.1 (or off x86-64) with an error that says so.
pub fn hamming_distance_string_sse41(a: &str, b: &str, cpu: &CpuFeatures) -> (r: Result<u64, &'static str>)
    requires
        a.spec_bytes().len() <= b.spec_bytes().len(),
        distance_fits(a.spec_bytes().len() as nat),
    ensures
        cpu.arch != Arch::X86_64 ==> r == Err::<u64, &'static str>(ERR_SSE41_ARCH),
        cpu.arch == Arch::X86_64 && !cpu.sse41 ==> r == Err::<u64, &'static str>(ERR_SSE41_UNAVAILABLE),
        has_sse41_spec(*cpu) ==> (r is Ok <==> all_hex_upto(a.spec_bytes(), b.spec_bytes(), a.spec_bytes().len() as int)),
        has_sse41_spec(*cpu) ==> (r matches Ok(v) ==> v == hex_distance(a.spec_bytes(), b.spec_bytes())),
        has_sse41_spec(*cpu) ==> (r matches Err(e) ==> e == ERR_INVALID_CHAR),
{
    match cpu.arch {
        Arch::X86_64 => {},
        _ => {
            return Err(ERR_SSE41_ARCH);
        },
    }
    if !cpu.sse41 {
        return Err(ERR_SSE41_UNAVAILABLE);
    }
    let a_bytes = a.as_bytes();
    let b_bytes = b.as_bytes();
    let len = a_bytes.len();
    let mut result: u64 = 0;
    let mut i: usize = 0;
    proof {
        lemma_hex_distance_upto_monotone(a_bytes@, b_bytes@, 0, len as int);
    }
    while len - i >= 16
        invariant
            i <= len,
            len == a_bytes@.len(),
            a_bytes@.len() <= b_bytes@.len(),
            a_bytes@ == a.spec_bytes(),
            b_bytes@ == b.spec_bytes(),
            cpu.arch == Arch::X86_64 && cpu.sse41,
            8 * len <= i64::MAX,
            hex_distance_upto(a_bytes@, b_bytes@, len as int) <= 4 * len,
            all_hex_upto(a_bytes@, b_bytes@, i as int),
            result == hex_distance_upto(a_bytes@, b_bytes@, i as int),
        decreases len - i,
    {
        let mut local: u64 = 0;
        let mut j: usize = 0;
        while j < 16
            invariant
                i + 16 <= len,
                len == a_bytes@.len(),
                a_bytes@.len() <= b_bytes@.len(),
                a_bytes@ == a.spec_bytes(),
                b_bytes@ == b.spec_bytes(),
                cpu.arch == Arch::X86_64 && cpu.sse41,
                8 * len <= i64::MAX,
                hex_distance_upto(a_bytes@, b_bytes@, len as int) <= 4 * len,
                j <= 16,
                all_hex_upto(a_bytes@, b_bytes@, i + j),
                result + local == hex_distance_upto(a_bytes@, b_bytes@, i + j),
            decreases 16 - j,
        {
            match char_pair_distance(a_bytes[i + j], b_bytes[i + j]) {
                None => {
                    proof {
                        assert(!pair_is_hex(a_bytes@, b_bytes@, i + j));
                    }
                    return Err(ERR_INVALID_CHAR);
                },
                Some(d) => {
                    proof {
                        lemma_hex_distance_upto_monotone(a_bytes@, b_bytes@, i + j + 1, len as int);
                        assert(hex_distance_upto(a_bytes@, b_bytes@, i + j + 1) == hex_distance_upto(
                            a_bytes@,
                            b_bytes@,
                            i + j,
                        ) + d);
                    }
                    local = local + d;
                    j = j + 1;
                },
            }
        }
        proof {
            lemma_hex_distance_upto_monotone(a_bytes@, b_bytes@, i + 16, len as int);
        }
        result = result + local;
        i = i + 16;
    }
    while i < len
        invariant
            i <= len,
            len == a_bytes@.len(),
            a_bytes@.len() <= b_bytes@.len(),
            a_bytes@ == a.spec_bytes(),
            b_bytes@ == b.spec_bytes(),
            cpu.arch == Arch::X86_64 && cpu.sse41,
            8 * len <= i64::MAX,
            hex_distance_upto(a_bytes@, b_bytes@, len as int) <= 4 * len,
            all_hex_upto(a_bytes@, b_bytes@, i as int),
            result == hex_distance_upto(a_bytes@, b_bytes@, i as int),
        decreases len - i,
    {
        match char_pair_distance(a_bytes[i], b_bytes[i]) {
            None => {
                proof {
                    assert(!pair_is_hex(a_bytes@, b_bytes@, i as int));
                }
                return Err(ERR_INVALID_CHAR);
            },
            Some(d) => {
                proof {
                    lemma_hex_distance_upto_monotone(a_bytes@, b_bytes@, i + 1, len as int);
                    assert(hex_distance_upto(a_bytes@, b_bytes@, i + 1) == hex_distance_upto(
                        a_bytes@,
                        b_bytes@,
                        i as int,
                    ) + d);
                }
                result = result + d;
                i = i + 1;
            },
        }
    }
    Ok(result)
}

/// The processor can run the SSE4.1 kernels.
pub open spec fn has_sse41_spec(cpu: CpuFeatures) -> bool {
    cpu.arch == Arch::X86_64 && cpu.sse41
}

} // verus!
