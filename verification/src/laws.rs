//! Properties that relate the scans to each other: each scan has exactly one
//! correct answer, so every strategy that meets a scan's contract (serial,
//! split across chunks, indexed, one query of a batch) returns the same
//! result; the first and closest matches are entries of the full list; and
//! the hex-string cutoff checked per block never misreports.

use vstd::prelude::*;
use crate::records::{
    all_matches, is_best_match, is_first_match, is_match, record, record_count, record_distance,
    lemma_all_concat, lemma_record_bounds,
};
use crate::distance::{distance_fits, lemma_distance_upto_bounds};
use crate::api::Scan;
use crate::hex::{
    all_hex_upto, hex_distance, hex_distance_upto, hex_exceeds, hex_fails_before_cutoff,
    pair_is_hex, lemma_hex_distance_upto_monotone,
};
use crate::packed::{packed_exceeds, packed_fails, packed_fails_at, packed_stops_at, packed_stretch_end};

verus! {

/// A first-match scan has a single correct answer.
pub proof fn law_first_match_unique(
    big: Seq<u8>,
    query: Seq<u8>,
    max_dist: i64,
    lo: int,
    hi: int,
    r1: Option<usize>,
    r2: Option<usize>,
)
    requires
        is_first_match(big, query, max_dist, lo, hi, r1),
        is_first_match(big, query, max_dist, lo, hi, r2),
    ensures
        r1 == r2,
{
    match (r1, r2) {
        (Some(a), Some(b)) => {
            if a < b {
                assert(is_match(big, query, max_dist, a as int));
            } else if b < a {
                assert(is_match(big, query, max_dist, b as int));
            }
        },
        (Some(a), None) => {
            assert(is_match(big, query, max_dist, a as int));
        },
        (None, Some(b)) => {
            assert(is_match(big, query, max_dist, b as int));
        },
        (None, None) => {},
    }
}

/// A closest-match scan has a single correct answer: the distance is the
/// smallest one, and ties go to the lowest index.
pub proof fn law_best_match_unique(
    big: Seq<u8>,
    query: Seq<u8>,
    max_dist: i64,
    lo: int,
    hi: int,
    r1: Option<(u64, usize)>,
    r2: Option<(u64, usize)>,
)
    requires
        is_best_match(big, query, max_dist, lo, hi, r1),
        is_best_match(big, query, max_dist, lo, hi, r2),
    ensures
        r1 == r2,
{
    match (r1, r2) {
        (Some(a), Some(b)) => {
            assert(is_match(big, query, max_dist, a.1 as int));
            assert(is_match(big, query, max_dist, b.1 as int));
            if a.1 < b.1 {
                assert(b.0 < record_distance(big, query, a.1 as int));
            } else if b.1 < a.1 {
                assert(a.0 < record_distance(big, query, b.1 as int));
            }
        },
        (Some(a), None) => {
            assert(is_match(big, query, max_dist, a.1 as int));
        },
        (None, Some(b)) => {
            assert(is_match(big, query, max_dist, b.1 as int));
        },
        (None, None) => {},
    }
}

proof fn lemma_no_matches_empty(big: Seq<u8>, query: Seq<u8>, max_dist: i64, lo: int, hi: int)
    requires
        forall|j: int| lo <= j < hi ==> !#[trigger] is_match(big, query, max_dist, j),
    ensures
        all_matches(big, query, max_dist, lo, hi) =~= Seq::<(u64, usize)>::empty(),
    decreases hi - lo,
{
    if hi > lo {
        lemma_no_matches_empty(big, query, max_dist, lo, hi - 1);
        assert(!is_match(big, query, max_dist, hi - 1));
    }
}

/// Every entry of the full list is a match with its distance, and every
/// match of the range is named by an entry.
pub proof fn lemma_all_matches_entries(big: Seq<u8>, query: Seq<u8>, max_dist: i64, lo: int, hi: int)
    requires
        0 <= lo,
        hi <= usize::MAX,
    ensures
        forall|k: int|
            0 <= k < all_matches(big, query, max_dist, lo, hi).len() ==> {
                let e = #[trigger] all_matches(big, query, max_dist, lo, hi)[k];
                &&& lo <= e.1 < hi
                &&& is_match(big, query, max_dist, e.1 as int)
                &&& e.0 == record_distance(big, query, e.1 as int) as u64
            },
        forall|j: int|
            lo <= j < hi && #[trigger] is_match(big, query, max_dist, j) ==> all_matches(
                big,
                query,
                max_dist,
                lo,
                hi,
            ).contains((record_distance(big, query, j) as u64, j as usize)),
    decreases hi - lo,
{
    if hi > lo {
        lemma_all_matches_entries(big, query, max_dist, lo, hi - 1);
        let rest = all_matches(big, query, max_dist, lo, hi - 1);
        let all = all_matches(big, query, max_dist, lo, hi);
        assert forall|j: int|
            lo <= j < hi && #[trigger] is_match(big, query, max_dist, j) implies all.contains(
            (record_distance(big, query, j) as u64, j as usize)) by {
            if j < hi - 1 {
                let x = (record_distance(big, query, j) as u64, j as usize);
                let w = choose|w: int| 0 <= w < rest.len() && rest[w] == x;
                assert(all[w] == x);
            } else {
                assert(all[all.len() - 1] == (record_distance(big, query, j) as u64, j as usize));
            }
        }
        assert forall|k: int| 0 <= k < all.len() implies {
            let e = #[trigger] all[k];
            &&& lo <= e.1 < hi
            &&& is_match(big, query, max_dist, e.1 as int)
            &&& e.0 == record_distance(big, query, e.1 as int) as u64
        } by {
            if k < rest.len() {
                assert(all[k] == rest[k]);
            }
        }
    }
}

/// The first match is the first entry of the full list of matches, and
/// there is none exactly when the list is empty.
pub proof fn law_first_is_head_of_all(
    big: Seq<u8>,
    query: Seq<u8>,
    max_dist: i64,
    lo: int,
    hi: int,
    first: Option<usize>,
)
    requires
        0 <= lo <= hi,
        is_first_match(big, query, max_dist, lo, hi, first),
    ensures
        match first {
            Some(f) => all_matches(big, query, max_dist, lo, hi).len() > 0 && all_matches(
                big,
                query,
                max_dist,
                lo,
                hi,
            )[0] == (record_distance(big, query, f as int) as u64, f),
            None => all_matches(big, query, max_dist, lo, hi).len() == 0,
        },
{
    match first {
        Some(f) => {
            let fi = f as int;
            lemma_no_matches_empty(big, query, max_dist, lo, fi);
            lemma_all_concat(big, query, max_dist, lo, fi + 1, hi);
            assert(all_matches(big, query, max_dist, lo, fi + 1) =~= seq![
                (record_distance(big, query, fi) as u64, f),
            ]);
        },
        None => {
            lemma_no_matches_empty(big, query, max_dist, lo, hi);
        },
    }
}

/// The closest match is an entry of the full list of matches, no entry is
/// closer, and there is none exactly when the list is empty.
pub proof fn law_best_is_closest_in_all(
    big: Seq<u8>,
    query: Seq<u8>,
    max_dist: i64,
    lo: int,
    hi: int,
    best: Option<(u64, usize)>,
)
    requires
        0 <= lo <= hi <= record_count(big, query.len() as int),
        hi <= usize::MAX,
        0 < query.len(),
        distance_fits(query.len() as nat),
        is_best_match(big, query, max_dist, lo, hi, best),
    ensures
        match best {
            Some(b) => all_matches(big, query, max_dist, lo, hi).contains(b) && forall|k: int|
                0 <= k < all_matches(big, query, max_dist, lo, hi).len() ==> b.0 <= (
                #[trigger] all_matches(big, query, max_dist, lo, hi)[k]).0,
            None => all_matches(big, query, max_dist, lo, hi).len() == 0,
        },
{
    lemma_all_matches_entries(big, query, max_dist, lo, hi);
    match best {
        Some(b) => {
            assert(is_match(big, query, max_dist, b.1 as int));
            assert forall|k: int|
                0 <= k < all_matches(big, query, max_dist, lo, hi).len() implies b.0 <= (
                #[trigger] all_matches(big, query, max_dist, lo, hi)[k]).0 by {
                let e = all_matches(big, query, max_dist, lo, hi)[k];
                assert(is_match(big, query, max_dist, e.1 as int));
                let w = query.len() as int;
                lemma_record_bounds(big.len() as int, w, e.1 as int);
                lemma_distance_upto_bounds(record(big, w, e.1 as int), query, w);
            }
        },
        None => {
            lemma_no_matches_empty(big, query, max_dist, lo, hi);
        },
    }
}

/// The hex-string scan that checks its cutoff once per 32-character block
/// never gives a false answer: its `u64::MAX` sentinel means that some
/// all-hex prefix really differs in more than `max_dist` bits, its error
/// means that some character really is not a hex digit, and on hex strings
/// within the cutoff it reports the exact distance, as the
/// character-by-character scan does.
pub proof fn law_packed_cutoff_is_sound(a: Seq<u8>, b: Seq<u8>, max_dist: u64)
    requires
        a.len() == b.len(),
    ensures
        packed_exceeds(a, b, max_dist) ==> hex_exceeds(a, b, max_dist),
        packed_fails(a, b, max_dist) ==> !all_hex_upto(a, b, a.len() as int),
        all_hex_upto(a, b, a.len() as int) && hex_distance(a, b) <= max_dist ==> {
            &&& !packed_fails(a, b, max_dist)
            &&& !packed_exceeds(a, b, max_dist)
            &&& !hex_fails_before_cutoff(a, b, max_dist)
            &&& !hex_exceeds(a, b, max_dist)
        },
{
    let n = a.len() as int;
    if a.len() >= 32 {
        if packed_exceeds(a, b, max_dist) {
            if exists|k: int| #[trigger] packed_stops_at(a, b, max_dist, k) {
                let k = choose|k: int| #[trigger] packed_stops_at(a, b, max_dist, k);
                assert(hex_distance_upto(a, b, 32 * k) > max_dist);
            } else {
                assert(hex_distance_upto(a, b, n) > max_dist);
            }
        }
        if packed_fails(a, b, max_dist) {
            let k = choose|k: int| #[trigger] packed_fails_at(a, b, max_dist, k);
            let e = packed_stretch_end(n, k);
            if all_hex_upto(a, b, n) {
                assert(all_hex_upto(a, b, e));
            }
        }
    } else if hex_fails_before_cutoff(a, b, max_dist) {
        let j = choose|j: int|
            0 <= j < a.len() && !pair_is_hex(a, b, j) && all_hex_upto(a, b, j)
                && #[trigger] hex_distance_upto(a, b, j) <= max_dist;
        assert(!pair_is_hex(a, b, j));
    }
    if all_hex_upto(a, b, n) && hex_distance(a, b) <= max_dist {
        assert forall|p: int| 0 <= p <= n implies #[trigger] hex_distance_upto(a, b, p) <= max_dist by {
            lemma_hex_distance_upto_monotone(a, b, p, n);
        }
        assert forall|k: int| !#[trigger] packed_stops_at(a, b, max_dist, k) by {
            if packed_stops_at(a, b, max_dist, k) {
                assert(hex_distance_upto(a, b, 32 * k) <= max_dist);
            }
        }
        assert forall|k: int| !#[trigger] packed_fails_at(a, b, max_dist, k) by {
            if packed_fails_at(a, b, max_dist, k) {
                assert(all_hex_upto(a, b, packed_stretch_end(n, k)));
            }
        }
        assert forall|j: int|
            0 <= j < a.len() && all_hex_upto(a, b, j) implies pair_is_hex(a, b, j) by {}
    }
}

/// With the largest cutoff, the hex-string scans with a cutoff give what the
/// full distance gives: no sentinel, and an error exactly when some
/// character is not a hex digit.
pub proof fn law_unbounded_hex_cutoff(a: Seq<u8>, b: Seq<u8>)
    requires
        a.len() == b.len(),
        distance_fits(a.len() as nat),
    ensures
        !hex_exceeds(a, b, u64::MAX),
        hex_fails_before_cutoff(a, b, u64::MAX) <==> !all_hex_upto(a, b, a.len() as int),
        !packed_exceeds(a, b, u64::MAX),
        packed_fails(a, b, u64::MAX) <==> !all_hex_upto(a, b, a.len() as int),
{
    let n = a.len() as int;
    assert forall|p: int| 0 <= p <= n implies #[trigger] hex_distance_upto(a, b, p) <= u64::MAX by {
        lemma_hex_distance_upto_monotone(a, b, 0, p);
    }
    law_packed_cutoff_is_sound(a, b, u64::MAX);
    if !all_hex_upto(a, b, n) {
        // The first position that is not a hex pair.
        let j = choose|j: int| 0 <= j < n && !pair_is_hex(a, b, j);
        lemma_first_bad_pair(a, b, j);
        let f = choose|f: int| 0 <= f <= j && !pair_is_hex(a, b, f) && all_hex_upto(a, b, f);
        assert(hex_distance_upto(a, b, f) <= u64::MAX);
        if a.len() >= 32 {
            let k = if f < 32 * (n / 32) { f / 32 } else { n / 32 };
            assert(0 <= k <= n / 32);
            assert(32 * k <= f);
            assert(f < packed_stretch_end(n, k));
            assert(all_hex_upto(a, b, 32 * k));
            assert(hex_distance_upto(a, b, 32 * k) <= u64::MAX);
            assert(packed_fails_at(a, b, u64::MAX, k));
        }
    }
}

/// Below a position that is not a hex pair lies a first one.
proof fn lemma_first_bad_pair(a: Seq<u8>, b: Seq<u8>, j: int)
    requires
        0 <= j,
        !pair_is_hex(a, b, j),
    ensures
        exists|f: int| 0 <= f <= j && !pair_is_hex(a, b, f) && #[trigger] all_hex_upto(a, b, f),
    decreases j,
{
    if all_hex_upto(a, b, j) {
    } else {
        let i = choose|i: int| 0 <= i < j && !pair_is_hex(a, b, i);
        lemma_first_bad_pair(a, b, i);
    }
}

/// The backend never changes an answer. Two scans of the same query with
/// the same threshold, whatever byte kernel and whether or not a block
/// scanner each uses (the choice `set_algorithm`, `select_bytes_kernel` and
/// `select_array_scanner_for_width` make), give the same first match, the
/// same closest match and the same list of matches over the same records:
/// the answers their `first`, `best` and `all` are bound to agree.
pub proof fn law_backend_keeps_results(
    records: Seq<u8>,
    s1: Scan<'_>,
    s2: Scan<'_>,
    first1: Option<usize>,
    first2: Option<usize>,
    best1: Option<(u64, usize)>,
    best2: Option<(u64, usize)>,
    all1: Seq<(u64, usize)>,
    all2: Seq<(u64, usize)>,
)
    requires
        s1.query@ == s2.query@,
        s1.max_dist == s2.max_dist,
        is_first_match(records, s1.query@, s1.max_dist, 0, s1.spec_count(records), first1),
        is_first_match(records, s2.query@, s2.max_dist, 0, s2.spec_count(records), first2),
        is_best_match(records, s1.query@, s1.max_dist, 0, s1.spec_count(records), best1),
        is_best_match(records, s2.query@, s2.max_dist, 0, s2.spec_count(records), best2),
        all1 == all_matches(records, s1.query@, s1.max_dist, 0, s1.spec_count(records)),
        all2 == all_matches(records, s2.query@, s2.max_dist, 0, s2.spec_count(records)),
    ensures
        first1 == first2,
        best1 == best2,
        all1 == all2,
{
    assert(s1.query.len() == s2.query.len()) by {
        assert(s1.query@.len() == s2.query@.len());
    }
    law_first_match_unique(records, s1.query@, s1.max_dist, 0, s1.spec_count(records), first1, first2);
    law_best_match_unique(records, s1.query@, s1.max_dist, 0, s1.spec_count(records), best1, best2);
}

} // verus!
