//! Fixed-width record catalogs: the mathematical model of scanning a
//! concatenation of records for those near a query.

use vstd::prelude::*;
use crate::distance::{hamming, within};

verus! {

/// Record `i` of a catalog of `w`-byte records.
pub open spec fn record(big: Seq<u8>, w: int, i: int) -> Seq<u8> {
    big.subrange(i * w, i * w + w)
}

/// Number of whole `w`-byte records in `big`.
pub open spec fn record_count(big: Seq<u8>, w: int) -> int {
    big.len() as int / w
}

/// Distance of record `i` to the query (records are as wide as the query).
pub open spec fn record_distance(big: Seq<u8>, query: Seq<u8>, i: int) -> nat {
    hamming(record(big, query.len() as int, i), query)
}

/// Record `i` is within `max_dist` of the query.
pub open spec fn is_match(big: Seq<u8>, query: Seq<u8>, max_dist: i64, i: int) -> bool {
    within(record_distance(big, query, i), max_dist)
}

/// `r` is the lowest-index match among records `lo..hi`, or `None` if there is none.
pub open spec fn is_first_match(
    big: Seq<u8>,
    query: Seq<u8>,
    max_dist: i64,
    lo: int,
    hi: int,
    r: Option<usize>,
) -> bool {
    match r {
        Some(i) => lo <= i < hi && is_match(big, query, max_dist, i as int) && forall|j: int|
            lo <= j < i ==> !#[trigger] is_match(big, query, max_dist, j),
        None => forall|j: int| lo <= j < hi ==> !#[trigger] is_match(big, query, max_dist, j),
    }
}

/// `r` is the closest match among records `lo..hi` (the lowest index among
/// equally close ones) with its distance, or `None` if there is no match.
pub open spec fn is_best_match(
    big: Seq<u8>,
    query: Seq<u8>,
    max_dist: i64,
    lo: int,
    hi: int,
    r: Option<(u64, usize)>,
) -> bool {
    match r {
        Some((d, i)) => {
            &&& lo <= i < hi
            &&& is_match(big, query, max_dist, i as int)
            &&& d == record_distance(big, query, i as int)
            &&& forall|j: int|
                lo <= j < hi && #[trigger] is_match(big, query, max_dist, j) ==> d
                    <= record_distance(big, query, j)
            &&& forall|j: int|
                lo <= j < i && #[trigger] is_match(big, query, max_dist, j) ==> d
                    < record_distance(big, query, j)
        },
        None => forall|j: int| lo <= j < hi ==> !#[trigger] is_match(big, query, max_dist, j),
    }
}

/// Every match among records `lo..hi` as `(distance, index)`, in index order.
pub open spec fn all_matches(big: Seq<u8>, query: Seq<u8>, max_dist: i64, lo: int, hi: int) -> Seq<
    (u64, usize),
>
    decreases hi - lo,
{
    if hi <= lo {
        Seq::empty()
    } else {
        let rest = all_matches(big, query, max_dist, lo, hi - 1);
        if is_match(big, query, max_dist, hi - 1) {
            rest.push((record_distance(big, query, hi - 1) as u64, (hi - 1) as usize))
        } else {
            rest
        }
    }
}

/// Byte bounds of record `i`: it lies inside the catalog.
pub proof fn lemma_record_bounds(len: int, w: int, i: int)
    requires
        0 < w,
        0 <= i < len / w,
        0 <= len,
    ensures
        0 <= i * w,
        i * w + w <= len,
        (i + 1) * w == i * w + w,
{
    assert(i * w + w <= len) by (nonlinear_arith)
        requires
            0 < w,
            0 <= i < len / w,
            0 <= len,
    ;
    assert(0 <= i * w) by (nonlinear_arith)
        requires
            0 < w,
            0 <= i,
    ;
    assert((i + 1) * w == i * w + w) by (nonlinear_arith);
}


/// The records of a window of whole records are the catalog's records,
/// shifted by the window's first index.
pub proof fn lemma_window_records(big: Seq<u8>, query: Seq<u8>, lo: int, hi: int)
    requires
        0 < query.len(),
        0 <= lo <= hi <= usize::MAX,
        hi * query.len() <= big.len(),
    ensures
        ({
            let w = query.len() as int;
            let sub = big.subrange(lo * w, hi * w);
            &&& record_count(sub, w) == hi - lo
            &&& forall|i: int|
                0 <= i < hi - lo ==> #[trigger] record(sub, w, i) == record(big, w, lo + i)
            &&& forall|i: int|
                0 <= i < hi - lo ==> #[trigger] record_distance(sub, query, i) == record_distance(
                    big,
                    query,
                    lo + i,
                )
        }),
{
    let w = query.len() as int;
    let sub = big.subrange(lo * w, hi * w);
    assert(lo * w <= hi * w) by (nonlinear_arith)
        requires
            0 <= lo <= hi,
            0 < w,
    ;
    assert(0 <= lo * w) by (nonlinear_arith)
        requires
            0 <= lo,
            0 < w,
    ;
    assert(hi * w - lo * w == (hi - lo) * w) by (nonlinear_arith);
    assert(((hi - lo) * w) / w == hi - lo) by (nonlinear_arith)
        requires
            0 < w,
    ;
    assert forall|i: int| 0 <= i < hi - lo implies #[trigger] record(sub, w, i) == record(
        big,
        w,
        lo + i,
    ) by {
        assert(lo * w + i * w == (lo + i) * w) by (nonlinear_arith);
        assert(i * w + w <= (hi - lo) * w) by (nonlinear_arith)
            requires
                0 <= i < hi - lo,
                0 < w,
        ;
        assert(0 <= i * w) by (nonlinear_arith)
            requires
                0 <= i,
                0 < w,
        ;
        assert(record(sub, w, i) =~= record(big, w, lo + i));
    }
    assert forall|i: int| 0 <= i < hi - lo implies #[trigger] record_distance(sub, query, i)
        == record_distance(big, query, lo + i) by {
        assert(record(sub, w, i) == record(big, w, lo + i));
    }
}

/// Whole records end inside the catalog.
pub proof fn lemma_records_fit(big: Seq<u8>, w: int, hi: int)
    requires
        0 < w,
        0 <= hi <= record_count(big, w),
    ensures
        hi * w <= big.len(),
{
    assert(hi * w <= big.len()) by (nonlinear_arith)
        requires
            0 < w,
            0 <= hi <= big.len() as int / w,
    ;
}

/// A first match found in a window is the first match of that range of the
/// catalog.
pub proof fn lemma_window_first(
    big: Seq<u8>,
    query: Seq<u8>,
    max_dist: i64,
    lo: int,
    hi: int,
    r: Option<usize>,
)
    requires
        0 < query.len(),
        0 <= lo <= hi <= usize::MAX,
        hi * query.len() <= big.len(),
        is_first_match(
            big.subrange(lo * query.len(), hi * query.len()),
            query,
            max_dist,
            0,
            hi - lo,
            r,
        ),
    ensures
        is_first_match(
            big,
            query,
            max_dist,
            lo,
            hi,
            match r {
                Some(i) => Some((lo + i) as usize),
                None => None,
            },
        ),
{
    lemma_window_records(big, query, lo, hi);
    let sub = big.subrange(lo * query.len(), hi * query.len());
    match r {
        Some(i) => {
            assert(is_match(sub, query, max_dist, i as int));
            assert(record_distance(sub, query, i as int) == record_distance(big, query, lo + i));
            assert forall|j: int| lo <= j < lo + i implies !#[trigger] is_match(
                big,
                query,
                max_dist,
                j,
            ) by {
                assert(!is_match(sub, query, max_dist, j - lo));
            }
        },
        None => {
            assert forall|j: int| lo <= j < hi implies !#[trigger] is_match(big, query, max_dist, j) by {
                assert(!is_match(sub, query, max_dist, j - lo));
            }
        },
    }
}

/// First matches of adjacent ranges combine: the left range wins when it
/// has a match.
pub proof fn lemma_first_concat(
    big: Seq<u8>,
    query: Seq<u8>,
    max_dist: i64,
    lo: int,
    mid: int,
    hi: int,
    a: Option<usize>,
    b: Option<usize>,
)
    requires
        lo <= mid <= hi,
        is_first_match(big, query, max_dist, lo, mid, a),
        a is None ==> is_first_match(big, query, max_dist, mid, hi, b),
    ensures
        is_first_match(big, query, max_dist, lo, hi, if a is Some { a } else { b }),
{
}

/// A best match found in a window is the best match of that range of the
/// catalog.
pub proof fn lemma_window_best(
    big: Seq<u8>,
    query: Seq<u8>,
    max_dist: i64,
    lo: int,
    hi: int,
    r: Option<(u64, usize)>,
)
    requires
        0 < query.len(),
        0 <= lo <= hi <= usize::MAX,
        hi * query.len() <= big.len(),
        is_best_match(
            big.subrange(lo * query.len(), hi * query.len()),
            query,
            max_dist,
            0,
            hi - lo,
            r,
        ),
    ensures
        is_best_match(
            big,
            query,
            max_dist,
            lo,
            hi,
            match r {
                Some((d, i)) => Some((d, (lo + i) as usize)),
                None => None,
            },
        ),
{
    lemma_window_records(big, query, lo, hi);
    let sub = big.subrange(lo * query.len(), hi * query.len());
    match r {
        Some((d, i)) => {
            assert(is_match(sub, query, max_dist, i as int));
            assert(record_distance(sub, query, i as int) == record_distance(big, query, lo + i));
            assert forall|j: int|
                lo <= j < hi && #[trigger] is_match(big, query, max_dist, j) implies d
                <= record_distance(big, query, j) by {
                assert(is_match(sub, query, max_dist, j - lo));
            }
            assert forall|j: int|
                lo <= j < lo + i && #[trigger] is_match(big, query, max_dist, j) implies d
                < record_distance(big, query, j) by {
                assert(is_match(sub, query, max_dist, j - lo));
            }
        },
        None => {
            assert forall|j: int| lo <= j < hi implies !#[trigger] is_match(big, query, max_dist, j) by {
                assert(!is_match(sub, query, max_dist, j - lo));
            }
        },
    }
}

/// Merge of two best matches: the closer one, the lower index on a tie.
pub open spec fn spec_merge_best(a: Option<(u64, usize)>, b: Option<(u64, usize)>) -> Option<
    (u64, usize),
> {
    match (a, b) {
        (None, x) => x,
        (x, None) => x,
        (Some(x), Some(y)) => if x.0 < y.0 || (x.0 == y.0 && x.1 <= y.1) {
            Some(x)
        } else {
            Some(y)
        },
    }
}

/// Combining the best match of `lo..mid` (threshold `max_dist`) with the best
/// match of `mid..hi` under a threshold `t` that keeps every record closer
/// than the left one and admits nothing `max_dist` rejects gives the best
/// match of `lo..hi`.
pub proof fn lemma_best_concat(
    big: Seq<u8>,
    query: Seq<u8>,
    max_dist: i64,
    t: i64,
    lo: int,
    mid: int,
    hi: int,
    a: Option<(u64, usize)>,
    b: Option<(u64, usize)>,
)
    requires
        lo <= mid <= hi,
        is_best_match(big, query, max_dist, lo, mid, a),
        is_best_match(big, query, t, mid, hi, b),
        forall|x: nat| #[trigger] within(x, t) ==> within(x, max_dist),
        a matches Some((da, _)) ==> forall|x: nat| x < da && #[trigger] within(x, max_dist) ==> within(x, t),
        a is None ==> forall|x: nat| #[trigger] within(x, max_dist) ==> within(x, t),
    ensures
        is_best_match(big, query, max_dist, lo, hi, spec_merge_best(a, b)),
{
    match a {
        None => {
            match b {
                None => {
                    assert forall|j: int| lo <= j < hi implies !#[trigger] is_match(
                        big,
                        query,
                        max_dist,
                        j,
                    ) by {
                        if j >= mid {
                            assert(!is_match(big, query, t, j));
                            assert(within(record_distance(big, query, j), max_dist) ==> within(
                                record_distance(big, query, j),
                                t,
                            ));
                        }
                    }
                },
                Some((db, ib)) => {
                    assert(within(record_distance(big, query, ib as int), t));
                    assert forall|j: int|
                        lo <= j < hi && #[trigger] is_match(big, query, max_dist, j) implies db
                        <= record_distance(big, query, j) by {
                        assert(within(record_distance(big, query, j), t));
                        assert(is_match(big, query, t, j));
                    }
                    assert forall|j: int|
                        lo <= j < ib && #[trigger] is_match(big, query, max_dist, j) implies db
                        < record_distance(big, query, j) by {
                        assert(within(record_distance(big, query, j), t));
                        assert(is_match(big, query, t, j));
                    }
                },
            }
        },
        Some((da, ia)) => {
            match b {
                None => {
                    assert forall|j: int|
                        lo <= j < hi && #[trigger] is_match(big, query, max_dist, j) implies da
                        <= record_distance(big, query, j) by {
                        if j >= mid {
                            let x = record_distance(big, query, j);
                            if x < da {
                                assert(within(x, t));
                                assert(is_match(big, query, t, j));
                            }
                        }
                    }
                },
                Some((db, ib)) => {
                    assert(within(record_distance(big, query, ib as int), t));
                    if da < db || (da == db && ia <= ib) {
                        assert forall|j: int|
                            lo <= j < hi && #[trigger] is_match(big, query, max_dist, j) implies da
                            <= record_distance(big, query, j) by {
                            if j >= mid {
                                let x = record_distance(big, query, j);
                                if x < da {
                                    assert(within(x, t));
                                    assert(is_match(big, query, t, j));
                                }
                            }
                        }
                    } else {
                        assert(da > db);
                        assert forall|j: int|
                            lo <= j < hi && #[trigger] is_match(big, query, max_dist, j) implies db
                            <= record_distance(big, query, j) by {
                            if j >= mid {
                                let x = record_distance(big, query, j);
                                if x < da {
                                    assert(within(x, t));
                                    assert(is_match(big, query, t, j));
                                }
                            }
                        }
                        assert forall|j: int|
                            lo <= j < ib && #[trigger] is_match(big, query, max_dist, j) implies db
                            < record_distance(big, query, j) by {
                            if j >= mid {
                                let x = record_distance(big, query, j);
                                if x < da {
                                    assert(within(x, t));
                                    assert(is_match(big, query, t, j));
                                }
                            }
                        }
                    }
                },
            }
        },
    }
}

/// An exact match of `lo..mid` with no earlier match is the best of any
/// longer range.
pub proof fn lemma_best_exact_extends(
    big: Seq<u8>,
    query: Seq<u8>,
    max_dist: i64,
    lo: int,
    mid: int,
    hi: int,
    i: usize,
)
    requires
        lo <= mid <= hi,
        is_best_match(big, query, max_dist, lo, mid, Some((0u64, i))),
    ensures
        is_best_match(big, query, max_dist, lo, hi, Some((0u64, i))),
{
}

/// Matches of adjacent ranges concatenate.
pub proof fn lemma_all_concat(big: Seq<u8>, query: Seq<u8>, max_dist: i64, lo: int, mid: int, hi: int)
    requires
        lo <= mid <= hi,
    ensures
        all_matches(big, query, max_dist, lo, hi) == all_matches(big, query, max_dist, lo, mid)
            + all_matches(big, query, max_dist, mid, hi),
    decreases hi - mid,
{
    if hi > mid {
        lemma_all_concat(big, query, max_dist, lo, mid, hi - 1);
        assert(all_matches(big, query, max_dist, mid, mid) =~= Seq::<(u64, usize)>::empty());
        let l = all_matches(big, query, max_dist, lo, mid);
        let r = all_matches(big, query, max_dist, mid, hi - 1);
        if is_match(big, query, max_dist, hi - 1) {
            let e = (record_distance(big, query, hi - 1) as u64, (hi - 1) as usize);
            assert((l + r).push(e) =~= l + r.push(e));
        }
    } else {
        assert(all_matches(big, query, max_dist, mid, hi) =~= Seq::<(u64, usize)>::empty());
        assert(all_matches(big, query, max_dist, lo, mid) + Seq::<(u64, usize)>::empty() =~= all_matches(big, query, max_dist, lo, mid));
    }
}

/// Every match of `lo..hi` has an index in that range.
pub proof fn lemma_all_matches_indices(big: Seq<u8>, query: Seq<u8>, max_dist: i64, lo: int, hi: int)
    requires
        0 <= lo,
        hi <= usize::MAX,
    ensures
        all_matches(big, query, max_dist, lo, hi).len() <= if hi > lo { hi - lo } else { 0 },
        forall|k: int|
            0 <= k < all_matches(big, query, max_dist, lo, hi).len() ==> lo <= (
            #[trigger] all_matches(big, query, max_dist, lo, hi)[k]).1 < hi,
    decreases hi - lo,
{
    if hi > lo {
        lemma_all_matches_indices(big, query, max_dist, lo, hi - 1);
    }
}

/// Indices shifted by `k`.
pub open spec fn shift_indices(s: Seq<(u64, usize)>, k: int) -> Seq<(u64, usize)> {
    s.map_values(|m: (u64, usize)| (m.0, (m.1 + k) as usize))
}

/// The matches of a window, with indices shifted by the window's first
/// record, are the matches of that range of the catalog.
pub proof fn lemma_window_all(big: Seq<u8>, query: Seq<u8>, max_dist: i64, lo: int, hi: int)
    requires
        0 < query.len(),
        0 <= lo <= hi <= usize::MAX,
        hi * query.len() <= big.len(),
    ensures
        shift_indices(
            all_matches(
                big.subrange(lo * query.len(), hi * query.len()),
                query,
                max_dist,
                0,
                hi - lo,
            ),
            lo,
        ) == all_matches(big, query, max_dist, lo, hi),
{
    lemma_window_records(big, query, lo, hi);
    lemma_window_all_upto(big, query, max_dist, lo, hi, hi - lo);
}

proof fn lemma_window_all_upto(big: Seq<u8>, query: Seq<u8>, max_dist: i64, lo: int, hi: int, n: int)
    requires
        0 < query.len(),
        0 <= lo <= hi <= usize::MAX,
        0 <= n <= hi - lo,
        hi * query.len() <= big.len(),
        forall|i: int|
            0 <= i < hi - lo ==> #[trigger] record_distance(
                big.subrange(lo * query.len(), hi * query.len()),
                query,
                i,
            ) == record_distance(big, query, lo + i),
    ensures
        shift_indices(
            all_matches(
                big.subrange(lo * query.len(), hi * query.len()),
                query,
                max_dist,
                0,
                n,
            ),
            lo,
        ) == all_matches(big, query, max_dist, lo, lo + n),
    decreases n,
{
    let sub = big.subrange(lo * query.len(), hi * query.len());
    if n == 0 {
        assert(shift_indices(all_matches(sub, query, max_dist, 0, 0), lo) =~= Seq::<(u64, usize)>::empty());
        assert(all_matches(big, query, max_dist, lo, lo) =~= Seq::<(u64, usize)>::empty());
    } else {
        lemma_window_all_upto(big, query, max_dist, lo, hi, n - 1);
        assert(record_distance(sub, query, n - 1) == record_distance(big, query, lo + n - 1));
        let prev = all_matches(sub, query, max_dist, 0, n - 1);
        if is_match(sub, query, max_dist, n - 1) {
            let e = (record_distance(sub, query, n - 1) as u64, (n - 1) as usize);
            assert(shift_indices(prev.push(e), lo) =~= shift_indices(prev, lo).push(
                (e.0, (e.1 + lo) as usize),
            ));
        }
    }
}

/// The entries are in strictly increasing index order.
pub open spec fn strictly_by_index(s: Seq<(u64, usize)>) -> bool {
    forall|i: int, j: int| 0 <= i < j < s.len() ==> (#[trigger] s[i]).1 < (#[trigger] s[j]).1
}

/// The matches among records `lo..hi` are the one strictly increasing list
/// of `(distance, index)` entries that names exactly the matching records.
pub proof fn lemma_all_matches_unique(
    big: Seq<u8>,
    query: Seq<u8>,
    max_dist: i64,
    lo: int,
    hi: int,
    s: Seq<(u64, usize)>,
)
    requires
        0 <= lo <= hi,
        strictly_by_index(s),
        forall|k: int|
            0 <= k < s.len() ==> lo <= (#[trigger] s[k]).1 < hi && is_match(big, query, max_dist, s[k].1 as int)
                && s[k].0 == record_distance(big, query, s[k].1 as int) as u64,
        forall|i: int|
            lo <= i < hi && is_match(big, query, max_dist, i) ==> exists|k: int|
                0 <= k < s.len() && (#[trigger] s[k]).1 == i,
    ensures
        s == all_matches(big, query, max_dist, lo, hi),
    decreases hi - lo,
{
    if hi == lo {
        if s.len() > 0 {
            assert(lo <= s[0].1 < hi);
        }
        assert(s =~= Seq::<(u64, usize)>::empty());
    } else if is_match(big, query, max_dist, hi - 1) {
        let k = choose|k: int| 0 <= k < s.len() && (#[trigger] s[k]).1 == hi - 1;
        let last = s.len() - 1;
        if k < last {
            assert(s[k].1 < s[last].1);
        }
        let rest = s.drop_last();
        assert forall|i: int|
            lo <= i < hi - 1 && is_match(big, query, max_dist, i) implies exists|k2: int|
                0 <= k2 < rest.len() && (#[trigger] rest[k2]).1 == i by {
            let k2 = choose|k2: int| 0 <= k2 < s.len() && (#[trigger] s[k2]).1 == i;
            assert(k2 != last);
            assert(rest[k2] == s[k2]);
        }
        assert forall|k2: int| 0 <= k2 < rest.len() implies lo <= (#[trigger] rest[k2]).1 < hi - 1 by {
            assert(rest[k2] == s[k2]);
            assert(s[k2].1 < s[last].1);
        }
        lemma_all_matches_unique(big, query, max_dist, lo, hi - 1, rest);
        assert(s =~= rest.push(s[last]));
    } else {
        assert forall|k2: int| 0 <= k2 < s.len() implies lo <= (#[trigger] s[k2]).1 < hi - 1 by {
            if s[k2].1 == hi - 1 {
                assert(is_match(big, query, max_dist, hi - 1));
            }
        }
        lemma_all_matches_unique(big, query, max_dist, lo, hi - 1, s);
    }
}

} // verus!
