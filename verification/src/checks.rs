//! Threshold checks with the conventions of the Python interface: a negative
//! threshold is rejected, a missing match is reported as `-1`, and indices
//! are returned as integers.

use vstd::prelude::*;
use vstd::string::StringSliceAdditionalSpecFns;
use crate::api::{hamming_distance_string_dispatch_with_max, ERR_STRING_LENGTHS};
use crate::distance::distance_fits;
use crate::hex::{
    all_hex_upto, block_distance4, char_pair_distance, hex_distance_upto, hex_exceeds,
    hex_fails_before_cutoff, lemma_hex_distance_upto_monotone, pair_is_hex, ERR_INVALID_HEX,
    hex_distance, lemma_hex_distance_self,
};
use crate::legacy::bytes_equal;
use crate::api::{
    bytes_array_all_within_dist, bytes_array_best_within_dist, bytes_array_first_within_dist,
    bytes_within_dist, ERR_ARRAY_SIZES, ERR_EMPTY_ARRAY,
};
use crate::batch::{
    bytes_array_all_many_within_dist, bytes_array_best_many_within_dist,
    bytes_array_first_many_within_dist, multi_error, ERR_EMPTY_ELEM, ERR_NOT_MULTIPLE,
};
use crate::distance::{hamming, within};
use crate::records::{all_matches, is_best_match, is_first_match, record, record_count};

verus! {

pub const ERR_NEGATIVE_MAX_DIST_HEX: &'static str = "`max_dist` must be >0";

/// Strings shorter than this are scanned in blocks of four characters, with
/// the cutoff checked after each block; longer ones go through the dispatch
/// with a per-character cutoff.
pub const HEX_CHECK_BLOCK_SCAN_LIMIT: usize = 64;

/// Number of points at which the block scan of an `n`-character string
/// compares its running distance with the cutoff.
pub open spec fn hex_checkpoint_count(n: int) -> int {
    n / 4 + n % 4
}

/// Position of checkpoint `k` of the block scan: after each whole block of
/// four, then after each remaining character.
pub open spec fn hex_checkpoint(n: int, k: int) -> int {
    if k <= n / 4 {
        4 * k
    } else {
        4 * (n / 4) + (k - n / 4)
    }
}

/// The block scan meets a character that is not a hex digit (in the span
/// up to some checkpoint) before the cutoff is exceeded.
pub open spec fn hex_block_scan_fails(a: Seq<u8>, b: Seq<u8>, max_dist: u64) -> bool {
    let n = a.len() as int;
    exists|k: int|
        1 <= k <= hex_checkpoint_count(n) && all_hex_upto(a, b, hex_checkpoint(n, k - 1))
            && hex_distance_upto(a, b, hex_checkpoint(n, k - 1)) <= max_dist && !all_hex_upto(
            a,
            b,
            #[trigger] hex_checkpoint(n, k),
        )
}

/// The block scan finds, at some checkpoint, an all-hex prefix that differs
/// in more than `max_dist` bits.
pub open spec fn hex_block_scan_exceeds(a: Seq<u8>, b: Seq<u8>, max_dist: u64) -> bool {
    let n = a.len() as int;
    exists|k: int|
        1 <= k <= hex_checkpoint_count(n) && all_hex_upto(a, b, #[trigger] hex_checkpoint(n, k))
            && hex_distance_upto(a, b, hex_checkpoint(n, k)) > max_dist
}

/// What checking two hex strings against `max_dist` answers.
pub open spec fn spec_check_hexstrings(a: Seq<u8>, b: Seq<u8>, max_dist: i64) -> Result<
    bool,
    &'static str,
> {
    if max_dist < 0 {
        Err(ERR_NEGATIVE_MAX_DIST_HEX)
    } else if a.len() != b.len() {
        Err(ERR_STRING_LENGTHS)
    } else if a == b || max_dist >= 4 * a.len() {
        Ok(true)
    } else if a.len() >= HEX_CHECK_BLOCK_SCAN_LIMIT {
        if hex_fails_before_cutoff(a, b, max_dist as u64) {
            Err(ERR_INVALID_HEX)
        } else {
            Ok(!hex_exceeds(a, b, max_dist as u64))
        }
    } else if hex_block_scan_fails(a, b, max_dist as u64) {
        Err(ERR_INVALID_HEX)
    } else {
        Ok(!hex_block_scan_exceeds(a, b, max_dist as u64))
    }
}

proof fn lemma_checkpoints(n: int)
    requires
        0 <= n,
    ensures
        hex_checkpoint(n, 0) == 0,
        hex_checkpoint(n, hex_checkpoint_count(n)) == n,
        forall|k1: int, k2: int|
            0 <= k1 <= k2 ==> #[trigger] hex_checkpoint(n, k1) <= #[trigger] hex_checkpoint(n, k2),
{
}

/// Everything before `n` is hex and within the cutoff: the block scan
/// neither fails nor exceeds.
proof fn lemma_block_scan_clean(a: Seq<u8>, b: Seq<u8>, max_dist: u64)
    requires
        a.len() == b.len(),
        all_hex_upto(a, b, a.len() as int),
        hex_distance_upto(a, b, a.len() as int) <= max_dist,
    ensures
        !hex_block_scan_fails(a, b, max_dist),
        !hex_block_scan_exceeds(a, b, max_dist),
{
    let n = a.len() as int;
    lemma_checkpoints(n);
    assert forall|k: int| 1 <= k <= hex_checkpoint_count(n) implies all_hex_upto(
        a,
        b,
        #[trigger] hex_checkpoint(n, k),
    ) && hex_distance_upto(a, b, hex_checkpoint(n, k)) <= max_dist by {
        assert(hex_checkpoint(n, k) <= hex_checkpoint(n, hex_checkpoint_count(n)));
        lemma_hex_distance_upto_monotone(a, b, hex_checkpoint(n, k), n);
    }
}

/// The block scan exceeds the cutoff at checkpoint `k`, with everything
/// before it hex: it does not fail.
proof fn lemma_block_scan_exceeds_at(a: Seq<u8>, b: Seq<u8>, max_dist: u64, k: int)
    requires
        a.len() == b.len(),
        1 <= k <= hex_checkpoint_count(a.len() as int),
        all_hex_upto(a, b, hex_checkpoint(a.len() as int, k)),
        hex_distance_upto(a, b, hex_checkpoint(a.len() as int, k)) > max_dist,
    ensures
        hex_block_scan_exceeds(a, b, max_dist),
        !hex_block_scan_fails(a, b, max_dist),
{
    let n = a.len() as int;
    lemma_checkpoints(n);
    assert forall|k2: int|
        1 <= k2 <= hex_checkpoint_count(n) && all_hex_upto(a, b, hex_checkpoint(n, k2 - 1))
            && hex_distance_upto(a, b, hex_checkpoint(n, k2 - 1)) <= max_dist implies all_hex_upto(
        a,
        b,
        #[trigger] hex_checkpoint(n, k2),
    ) by {
        if k2 > k {
            assert(hex_checkpoint(n, k) <= hex_checkpoint(n, k2 - 1));
            lemma_hex_distance_upto_monotone(a, b, hex_checkpoint(n, k), hex_checkpoint(n, k2 - 1));
        } else {
            assert(hex_checkpoint(n, k2) <= hex_checkpoint(n, k));
        }
    }
}

/// For two equal-length strings of hex digits and a non-negative cutoff, the
/// check answers whether the strings differ in at most `max_dist` bits,
/// whichever way (block scan or dispatch with early exit) it takes.
pub proof fn law_check_hexstrings_is_distance_bound(a: Seq<u8>, b: Seq<u8>, max_dist: i64)
    requires
        max_dist >= 0,
        a.len() == b.len(),
        all_hex_upto(a, b, a.len() as int),
    ensures
        spec_check_hexstrings(a, b, max_dist) == Ok::<bool, &'static str>(
            hex_distance(a, b) <= max_dist,
        ),
{
    let n = a.len() as int;
    let m = max_dist as u64;
    lemma_hex_distance_upto_monotone(a, b, 0, n);
    if a == b {
        lemma_hex_distance_self(a, n);
    } else if max_dist >= 4 * n {
    } else if n >= HEX_CHECK_BLOCK_SCAN_LIMIT {
        if hex_fails_before_cutoff(a, b, m) {
            let j = choose|j: int|
                0 <= j < a.len() && !pair_is_hex(a, b, j) && all_hex_upto(a, b, j)
                    && #[trigger] hex_distance_upto(a, b, j) <= m;
            assert(pair_is_hex(a, b, j));
        }
        if hex_distance(a, b) > m {
            assert(hex_distance_upto(a, b, n) > m);
        }
        if hex_exceeds(a, b, m) {
            let k = choose|k: int|
                0 <= k <= a.len() && all_hex_upto(a, b, k) && #[trigger] hex_distance_upto(a, b, k)
                    > m;
            lemma_hex_distance_upto_monotone(a, b, k, n);
        }
    } else {
        if hex_distance(a, b) <= m {
            lemma_block_scan_clean(a, b, m);
        } else {
            if n == 0 {
                assert(a =~= b);
            }
            lemma_checkpoints(n);
            lemma_block_scan_exceeds_at(a, b, m, hex_checkpoint_count(n));
        }
    }
}

/// Whether two equal-length hex strings differ in at most `max_dist` bits.
///
/// Fails for a negative `max_dist`, for strings of different lengths, and
/// for a character that is not a hex digit met before the cutoff is
/// exceeded. Equal strings, and cutoffs that no pair of strings of this
/// length can exceed, are accepted without reading the characters.
pub fn check_hexstrings_within_dist(a: &str, b: &str, max_dist: i64) -> (r: Result<bool, &'static str>)
    requires
        distance_fits(a.spec_bytes().len() as nat),
    ensures
        r == spec_check_hexstrings(a.spec_bytes(), b.spec_bytes(), max_dist),
        max_dist >= 0 && a.spec_bytes().len() == b.spec_bytes().len() && all_hex_upto(
            a.spec_bytes(),
            b.spec_bytes(),
            a.spec_bytes().len() as int,
        ) ==> r == Ok::<bool, &'static str>(hex_distance(a.spec_bytes(), b.spec_bytes()) <= max_dist),
{
    proof {
        if max_dist >= 0 && a.spec_bytes().len() == b.spec_bytes().len() && all_hex_upto(
            a.spec_bytes(),
            b.spec_bytes(),
            a.spec_bytes().len() as int,
        ) {
            law_check_hexstrings_is_distance_bound(a.spec_bytes(), b.spec_bytes(), max_dist);
        }
    }
    if max_dist < 0 {
        return Err(ERR_NEGATIVE_MAX_DIST_HEX);
    }
    let max_dist_u64 = max_dist as u64;
    let a_bytes = a.as_bytes();
    let b_bytes = b.as_bytes();
    if a_bytes.len() != b_bytes.len() {
        return Err(ERR_STRING_LENGTHS);
    }
    if bytes_equal(a_bytes, b_bytes) {
        return Ok(true);
    }
    let len = a_bytes.len();
    if max_dist_u64 >= (len as u64) * 4 {
        return Ok(true);
    }
    if len >= HEX_CHECK_BLOCK_SCAN_LIMIT {
        let dist = hamming_distance_string_dispatch_with_max(a_bytes, b_bytes, max_dist_u64)?;
        return Ok(dist != u64::MAX);
    }
    let ghost sa = a_bytes@;
    let ghost sb = b_bytes@;
    let ghost n = len as int;
    proof {
        lemma_checkpoints(n);
    }
    let mut result: u64 = 0;
    let mut i: usize = 0;
    let ghost mut k: int = 0;
    while len - i >= 4
        invariant
            len == sa.len(),
            sa == a_bytes@,
            sb == b_bytes@,
            sa == a.spec_bytes(),
            sb == b.spec_bytes(),
            n == len,
            len < HEX_CHECK_BLOCK_SCAN_LIMIT,
            sa.len() == sb.len(),
            i <= len,
            i % 4 == 0,
            k == i / 4,
            i == hex_checkpoint(n, k),
            0 <= k <= n / 4,
            all_hex_upto(sa, sb, i as int),
            result == hex_distance_upto(sa, sb, i as int),
            result <= max_dist_u64,
            max_dist_u64 == max_dist,
            0 <= max_dist,
            (max_dist as int) < 4 * len,
            sa != sb,
            len < HEX_CHECK_BLOCK_SCAN_LIMIT,
        decreases len - i,
    {
        match block_distance4(a_bytes, b_bytes, i) {
            None => {
                proof {
                    assert(hex_checkpoint(n, k + 1) == i + 4);
                    assert(!all_hex_upto(sa, sb, hex_checkpoint(n, k + 1))) by {
                        if all_hex_upto(sa, sb, i + 4) {
                            assert(pair_is_hex(sa, sb, i as int));
                            assert(pair_is_hex(sa, sb, i + 1));
                            assert(pair_is_hex(sa, sb, i + 2));
                            assert(pair_is_hex(sa, sb, i + 3));
                        }
                    }
                    assert(hex_block_scan_fails(sa, sb, max_dist_u64));
                }
                return Err(ERR_INVALID_HEX);
            },
            Some(d) => {
                proof {
                    lemma_hex_distance_upto_monotone(sa, sb, i as int, i + 4);
                    assert forall|j: int| 0 <= j < i + 4 implies pair_is_hex(sa, sb, j) by {
                        if j >= i {
                        }
                    }
                }
                result = result + d;
                i = i + 4;
                proof {
                    k = k + 1;
                    assert(hex_checkpoint(n, k) == i);
                }
                if result > max_dist_u64 {
                    proof {
                        lemma_block_scan_exceeds_at(sa, sb, max_dist_u64, k);
                        if all_hex_upto(sa, sb, n) {
                            law_check_hexstrings_is_distance_bound(sa, sb, max_dist);
                        }
                    }
                    return Ok(false);
                }
            },
        }
    }
    while i < len
        invariant
            len == sa.len(),
            sa == a_bytes@,
            sb == b_bytes@,
            sa == a.spec_bytes(),
            sb == b.spec_bytes(),
            n == len,
            sa.len() == sb.len(),
            i <= len,
            n / 4 <= k <= hex_checkpoint_count(n),
            i == hex_checkpoint(n, k),
            all_hex_upto(sa, sb, i as int),
            result == hex_distance_upto(sa, sb, i as int),
            result <= max_dist_u64,
            max_dist_u64 == max_dist,
            0 <= max_dist,
            (max_dist as int) < 4 * len,
            sa != sb,
            len < HEX_CHECK_BLOCK_SCAN_LIMIT,
        decreases len - i,
    {
        match char_pair_distance(a_bytes[i], b_bytes[i]) {
            None => {
                proof {
                    assert(hex_checkpoint(n, k + 1) == i + 1);
                    assert(!all_hex_upto(sa, sb, i + 1)) by {
                        assert(!pair_is_hex(sa, sb, i as int));
                    }
                    assert(hex_block_scan_fails(sa, sb, max_dist_u64));
                }
                return Err(ERR_INVALID_HEX);
            },
            Some(d) => {
                proof {
                    assert(hex_distance_upto(sa, sb, i + 1) == hex_distance_upto(sa, sb, i as int) + d);
                }
                result = result + d;
                i = i + 1;
                proof {
                    k = k + 1;
                    assert(hex_checkpoint(n, k) == i);
                }
                if result > max_dist_u64 {
                    proof {
                        lemma_block_scan_exceeds_at(sa, sb, max_dist_u64, k);
                        if all_hex_upto(sa, sb, n) {
                            law_check_hexstrings_is_distance_bound(sa, sb, max_dist);
                        }
                    }
                    return Ok(false);
                }
            },
        }
    }
    proof {
        lemma_block_scan_clean(sa, sb, max_dist_u64);
    }
    Ok(true)
}

pub const ERR_NEGATIVE_MAX_DIST: &'static str = "`max_dist` must be >=0";

/// Whether two non-empty, equal-length byte arrays differ in at most
/// `max_dist` bits; a negative `max_dist` is rejected.
pub fn check_bytes_within_dist(a: &[u8], b: &[u8], max_dist: i64) -> (r: Result<bool, &'static str>)
    requires
        distance_fits(a.len() as nat),
    ensures
        (a.len() == 0 || b.len() == 0) ==> r == Err::<bool, &'static str>(ERR_EMPTY_ARRAY),
        (a.len() > 0 && b.len() > 0 && max_dist < 0) ==> r == Err::<bool, &'static str>(
            ERR_NEGATIVE_MAX_DIST,
        ),
        (a.len() > 0 && b.len() > 0 && max_dist >= 0 && a.len() != b.len()) ==> r == Err::<
            bool,
            &'static str,
        >(ERR_ARRAY_SIZES),
        (a.len() > 0 && a.len() == b.len() && max_dist >= 0) ==> r == Ok::<bool, &'static str>(
            hamming(a@, b@) <= max_dist,
        ),
{
    if a.len() == 0 || b.len() == 0 {
        return Err(ERR_EMPTY_ARRAY);
    }
    if max_dist < 0 {
        return Err(ERR_NEGATIVE_MAX_DIST);
    }
    bytes_within_dist(a, b, max_dist)
}

/// The error a catalog/query pair with threshold `max_dist` is rejected with.
pub open spec fn array_check_error(big: Seq<u8>, small: Seq<u8>, max_dist: i64) -> Option<&'static str> {
    if small.len() == 0 {
        Some(ERR_EMPTY_ELEM)
    } else if max_dist < 0 {
        Some(ERR_NEGATIVE_MAX_DIST)
    } else if big.len() % small.len() != 0 {
        Some(ERR_NOT_MULTIPLE)
    } else {
        None
    }
}

/// Rejects a catalog/query pair with threshold `max_dist` as
/// [`array_check_error`] says.
pub fn validate_array_check(big: &[u8], small: &[u8], max_dist: i64) -> (r: Result<(), &'static str>)
    ensures
        array_check_error(big@, small@, max_dist) matches Some(e) ==> r == Err::<(), &'static str>(e),
        array_check_error(big@, small@, max_dist) is None ==> r is Ok,
{
    if small.len() == 0 {
        return Err(ERR_EMPTY_ELEM);
    }
    if max_dist < 0 {
        return Err(ERR_NEGATIVE_MAX_DIST);
    }
    if big.len() % small.len() != 0 {
        return Err(ERR_NOT_MULTIPLE);
    }
    Ok(())
}

/// An index as a signed integer, `-1` for none.
pub open spec fn index_code(found: Option<usize>) -> i64 {
    match found {
        Some(i) => i as i64,
        None => -1i64,
    }
}

/// A closest match as signed `(distance, index)`, `(-1, -1)` for none.
pub open spec fn best_code(best: Option<(u64, usize)>) -> (i64, i64) {
    match best {
        Some((d, i)) => (d as i64, i as i64),
        None => (-1i64, -1i64),
    }
}

/// Matches with indices as `u64`.
pub open spec fn all_code(all: Seq<(u64, usize)>) -> Seq<(u64, u64)> {
    all.map_values(|m: (u64, usize)| (m.0, m.1 as u64))
}

/// Encoding a list of matches keeps its length, its order and every entry:
/// each distance and each full record index come through unchanged.
pub proof fn law_all_code_keeps_entries(all: Seq<(u64, usize)>)
    ensures
        all_code(all).len() == all.len(),
        forall|k: int|
            0 <= k < all.len() ==> (#[trigger] all_code(all)[k]).0 == all[k].0 && all_code(all)[k].1
                == all[k].1,
{
    assert forall|k: int| 0 <= k < all.len() implies (#[trigger] all_code(all)[k]).0 == all[k].0
        && all_code(all)[k].1 == all[k].1 by {
        let m = all[k];
        assert(all_code(all)[k] == (m.0, m.1 as u64));
    }
}

/// [`index_code`] of a first match.
pub fn encode_index(found: Option<usize>) -> (r: i64)
    ensures
        r == index_code(found),
{
    match found {
        Some(i) => i as i64,
        None => -1,
    }
}

/// [`best_code`] of a closest match.
pub fn encode_best(best: Option<(u64, usize)>) -> (r: (i64, i64))
    ensures
        r == best_code(best),
{
    match best {
        Some((d, i)) => (d as i64, i as i64),
        None => (-1, -1),
    }
}

/// [`all_code`] of a list of matches.
pub fn encode_all(all: &[(u64, usize)]) -> (r: Vec<(u64, u64)>)
    ensures
        r@ == all_code(all@),
        r@.len() == all@.len(),
        forall|k: int|
            0 <= k < all@.len() ==> (#[trigger] r@[k]).0 == all@[k].0 && r@[k].1 == all@[k].1,
{
    proof {
        law_all_code_keeps_entries(all@);
    }
    let mut out: Vec<(u64, u64)> = Vec::new();
    let mut i: usize = 0;
    while i < all.len()
        invariant
            i <= all@.len(),
            out@ == all_code(all@.subrange(0, i as int)),
        decreases all@.len() - i,
    {
        let m = all[i];
        out.push((m.0, m.1 as u64));
        proof {
            assert(all@.subrange(0, i + 1) =~= all@.subrange(0, i as int).push(m));
            assert(all_code(all@.subrange(0, i + 1)) =~= all_code(all@.subrange(0, i as int)).push(
                (m.0, m.1 as u64),
            ));
        }
        i = i + 1;
    }
    proof {
        assert(all@.subrange(0, all@.len() as int) =~= all@);
    }
    out
}

/// Index of the first record within `max_dist` of `small`, or `-1`.
pub fn check_bytes_arrays_first_within_dist(big: &[u8], small: &[u8], max_dist: i64) -> (r: Result<
    i64,
    &'static str,
>)
    requires
        distance_fits(small.len() as nat),
    ensures
        array_check_error(big@, small@, max_dist) matches Some(e) ==> r == Err::<i64, &'static str>(e),
        array_check_error(big@, small@, max_dist) is None ==> exists|found: Option<usize>|
            is_first_match(big@, small@, max_dist, 0, record_count(big@, small.len() as int), found)
                && r == Ok::<i64, &'static str>(#[trigger] index_code(found)),
{
    validate_array_check(big, small, max_dist)?;
    let found = bytes_array_first_within_dist(big, small, max_dist)?;
    Ok(encode_index(found))
}

/// The closest record within `max_dist` of `small` as `(distance, index)`,
/// or `(-1, -1)`.
pub fn check_bytes_arrays_best_within_dist(big: &[u8], small: &[u8], max_dist: i64) -> (r: Result<
    (i64, i64),
    &'static str,
>)
    requires
        distance_fits(small.len() as nat),
    ensures
        array_check_error(big@, small@, max_dist) matches Some(e) ==> r == Err::<(i64, i64), &'static str>(
            e,
        ),
        array_check_error(big@, small@, max_dist) is None ==> exists|best: Option<(u64, usize)>|
            is_best_match(big@, small@, max_dist, 0, record_count(big@, small.len() as int), best)
                && r == Ok::<(i64, i64), &'static str>(#[trigger] best_code(best)),
{
    validate_array_check(big, small, max_dist)?;
    let best = bytes_array_best_within_dist(big, small, max_dist)?;
    Ok(encode_best(best))
}

/// Every record within `max_dist` of `small` as `(distance, index)`, in
/// index order.
pub fn check_bytes_arrays_all_within_dist(big: &[u8], small: &[u8], max_dist: i64) -> (r: Result<
    Vec<(u64, u64)>,
    &'static str,
>)
    requires
        distance_fits(small.len() as nat),
    ensures
        array_check_error(big@, small@, max_dist) matches Some(e) ==> r is Err && r->Err_0 == e,
        array_check_error(big@, small@, max_dist) is None ==> r is Ok && r->Ok_0@ == all_code(
            all_matches(big@, small@, max_dist, 0, record_count(big@, small.len() as int)),
        ),
        array_check_error(big@, small@, max_dist) is None ==> r is Ok && r->Ok_0@.len()
            == all_matches(big@, small@, max_dist, 0, record_count(big@, small.len() as int)).len()
            && forall|k: int|
            0 <= k < r->Ok_0@.len() ==> (#[trigger] r->Ok_0@[k]).0 == all_matches(
                big@,
                small@,
                max_dist,
                0,
                record_count(big@, small.len() as int),
            )[k].0 && r->Ok_0@[k].1 == all_matches(
                big@,
                small@,
                max_dist,
                0,
                record_count(big@, small.len() as int),
            )[k].1,
{
    validate_array_check(big, small, max_dist)?;
    let all = bytes_array_all_within_dist(big, small, max_dist)?;
    Ok(encode_all(all.as_slice()))
}

/// The error a multi-query request with threshold `max_dist` is rejected with.
pub open spec fn many_check_error(catalog: Seq<u8>, queries: Seq<u8>, query_width: usize, max_dist: i64) -> Option<
    &'static str,
> {
    if max_dist < 0 {
        Some(ERR_NEGATIVE_MAX_DIST)
    } else {
        multi_error(catalog, queries, query_width)
    }
}

/// `found` holds the first match of every `query_width`-byte query.
pub open spec fn first_matches_of(
    catalog: Seq<u8>,
    queries: Seq<u8>,
    query_width: usize,
    max_dist: i64,
    found: Seq<Option<usize>>,
) -> bool {
    &&& found.len() == record_count(queries, query_width as int)
    &&& forall|q: int|
        0 <= q < found.len() ==> is_first_match(
            catalog,
            record(queries, query_width as int, q),
            max_dist,
            0,
            record_count(catalog, query_width as int),
            #[trigger] found[q],
        )
}

/// `best` holds the closest match of every `query_width`-byte query.
pub open spec fn best_matches_of(
    catalog: Seq<u8>,
    queries: Seq<u8>,
    query_width: usize,
    max_dist: i64,
    best: Seq<Option<(u64, usize)>>,
) -> bool {
    &&& best.len() == record_count(queries, query_width as int)
    &&& forall|q: int|
        0 <= q < best.len() ==> is_best_match(
            catalog,
            record(queries, query_width as int, q),
            max_dist,
            0,
            record_count(catalog, query_width as int),
            #[trigger] best[q],
        )
}

/// [`check_bytes_arrays_first_within_dist`] for every `query_width`-byte query.
pub fn check_bytes_arrays_first_many_within_dist(
    catalog: &[u8],
    queries: &[u8],
    query_width: usize,
    max_dist: i64,
) -> (r: Result<Vec<i64>, &'static str>)
    requires
        distance_fits(query_width as nat),
    ensures
        many_check_error(catalog@, queries@, query_width, max_dist) matches Some(e) ==> r is Err
            && r->Err_0 == e,
        many_check_error(catalog@, queries@, query_width, max_dist) is None ==> r is Ok && exists|
            found: Seq<Option<usize>>,
        |
            #[trigger] first_matches_of(catalog@, queries@, query_width, max_dist, found)
                && r->Ok_0@ == found.map_values(|f: Option<usize>| index_code(f)),
{
    if max_dist < 0 {
        return Err(ERR_NEGATIVE_MAX_DIST);
    }
    let results = bytes_array_first_many_within_dist(catalog, queries, query_width, max_dist)?;
    let mut out: Vec<i64> = Vec::new();
    let mut q: usize = 0;
    while q < results.len()
        invariant
            q <= results@.len(),
            out@.len() == q,
            forall|j: int| 0 <= j < q ==> #[trigger] out@[j] == index_code(results@[j]),
        decreases results@.len() - q,
    {
        out.push(encode_index(results[q]));
        q = q + 1;
    }
    proof {
        assert(first_matches_of(catalog@, queries@, query_width, max_dist, results@));
        assert(out@ =~= results@.map_values(|f: Option<usize>| index_code(f)));
    }
    Ok(out)
}

/// [`check_bytes_arrays_best_within_dist`] for every `query_width`-byte query.
pub fn check_bytes_arrays_best_many_within_dist(
    catalog: &[u8],
    queries: &[u8],
    query_width: usize,
    max_dist: i64,
) -> (r: Result<Vec<(i64, i64)>, &'static str>)
    requires
        distance_fits(query_width as nat),
    ensures
        many_check_error(catalog@, queries@, query_width, max_dist) matches Some(e) ==> r is Err
            && r->Err_0 == e,
        many_check_error(catalog@, queries@, query_width, max_dist) is None ==> r is Ok && exists|
            best: Seq<Option<(u64, usize)>>,
        |
            #[trigger] best_matches_of(catalog@, queries@, query_width, max_dist, best)
                && r->Ok_0@ == best.map_values(|b: Option<(u64, usize)>| best_code(b)),
{
    if max_dist < 0 {
        return Err(ERR_NEGATIVE_MAX_DIST);
    }
    let results = bytes_array_best_many_within_dist(catalog, queries, query_width, max_dist)?;
    let mut out: Vec<(i64, i64)> = Vec::new();
    let mut q: usize = 0;
    while q < results.len()
        invariant
            q <= results@.len(),
            out@.len() == q,
            forall|j: int| 0 <= j < q ==> #[trigger] out@[j] == best_code(results@[j]),
        decreases results@.len() - q,
    {
        out.push(encode_best(results[q]));
        q = q + 1;
    }
    proof {
        assert(best_matches_of(catalog@, queries@, query_width, max_dist, results@));
        assert(out@ =~= results@.map_values(|b: Option<(u64, usize)>| best_code(b)));
    }
    Ok(out)
}

/// [`check_bytes_arrays_all_within_dist`] for every `query_width`-byte query.
pub fn check_bytes_arrays_all_many_within_dist(
    catalog: &[u8],
    queries: &[u8],
    query_width: usize,
    max_dist: i64,
) -> (r: Result<Vec<Vec<(u64, u64)>>, &'static str>)
    requires
        distance_fits(query_width as nat),
    ensures
        many_check_error(catalog@, queries@, query_width, max_dist) matches Some(e) ==> r is Err
            && r->Err_0 == e,
        many_check_error(catalog@, queries@, query_width, max_dist) is None ==> r is Ok
            && r->Ok_0@.len() == record_count(queries@, query_width as int) && forall|q: int|
            0 <= q < r->Ok_0@.len() ==> (#[trigger] r->Ok_0@[q])@ == all_code(
                all_matches(
                    catalog@,
                    record(queries@, query_width as int, q),
                    max_dist,
                    0,
                    record_count(catalog@, query_width as int),
                ),
            ),
{
    if max_dist < 0 {
        return Err(ERR_NEGATIVE_MAX_DIST);
    }
    let results = bytes_array_all_many_within_dist(catalog, queries, query_width, max_dist)?;
    let mut out: Vec<Vec<(u64, u64)>> = Vec::new();
    let mut q: usize = 0;
    while q < results.len()
        invariant
            q <= results@.len(),
            out@.len() == q,
            forall|j: int| 0 <= j < q ==> (#[trigger] out@[j])@ == all_code(results@[j]@),
        decreases results@.len() - q,
    {
        out.push(encode_all(results[q].as_slice()));
        q = q + 1;
    }
    Ok(out)
}

} // verus!
