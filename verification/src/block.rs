//! Fixed-width block scanners: records are compared sixteen at a time, and
//! the matching lanes of each block are picked out with a limit mask.

use vstd::prelude::*;
use crate::distance::{distance_fits, within};
use crate::records::{
    all_matches, is_best_match, is_first_match, is_match, record_count, record_distance,
};
use crate::scan::{lemma_bounded_result, record_slice, Kernel};

verus! {

/// Records per block.
pub const BLOCK_RECORDS: usize = 16;

/// Whether `distance` is accepted under `max_dist` (negative: unlimited).
pub fn within_fixed_threshold(distance: u64, max_dist: i64) -> (r: bool)
    ensures
        r == within(distance as nat, max_dist),
{
    max_dist < 0 || distance <= max_dist as u64
}

/// Largest accepted distance for `width`-byte records: `max_dist`, or any
/// distance when unlimited, capped at the record's bit count.
pub fn block_limit(width: usize, max_dist: i64) -> (r: u64)
    requires
        distance_fits(width as nat),
    ensures
        r <= 8 * width,
        r == (if max_dist < 0 || max_dist >= 8 * width {
            8 * width
        } else {
            max_dist as int
        }),
{
    let max_bits = (width as u64) * 8;
    if max_dist < 0 {
        max_bits
    } else if (max_dist as u64) < max_bits {
        max_dist as u64
    } else {
        max_bits
    }
}

/// Distances of the sixteen records starting at record `index`.
pub fn block_distances(records: &[u8], query: &[u8], index: usize, count: usize) -> (ds: Vec<u64>)
    requires
        query.len() > 0,
        distance_fits(query.len() as nat),
        count == record_count(records@, query.len() as int),
        index + BLOCK_RECORDS <= count,
    ensures
        ds.len() == BLOCK_RECORDS,
        forall|lane: int|
            0 <= lane < BLOCK_RECORDS ==> #[trigger] ds@[lane] == record_distance(
                records@,
                query@,
                index + lane,
            ),
        forall|lane: int| 0 <= lane < BLOCK_RECORDS ==> #[trigger] ds@[lane] <= 8 * query.len(),
{
    let mut ds: Vec<u64> = Vec::new();
    let mut lane: usize = 0;
    while lane < BLOCK_RECORDS
        invariant
            lane <= BLOCK_RECORDS,
            ds.len() == lane,
            query.len() > 0,
            distance_fits(query.len() as nat),
            count == record_count(records@, query.len() as int),
            index + BLOCK_RECORDS <= count,
            forall|l: int|
                0 <= l < lane ==> #[trigger] ds@[l] == record_distance(records@, query@, index + l),
            forall|l: int| 0 <= l < lane ==> #[trigger] ds@[l] <= 8 * query.len(),
        decreases BLOCK_RECORDS - lane,
    {
        let record = record_slice(records, query.len(), index + lane);
        let d = Kernel::Native.distance(record, query, -1);
        proof {
            lemma_bounded_result(record@, query@, -1i64);
        }
        ds.push(d);
        lane = lane + 1;
    }
    ds
}

/// Every record distance is at most the record's bit count.
proof fn lemma_record_distance_le(big: Seq<u8>, query: Seq<u8>, i: int)
    requires
        0 < query.len(),
        0 <= i < record_count(big, query.len() as int),
    ensures
        record_distance(big, query, i) <= 8 * query.len(),
{
    crate::records::lemma_record_bounds(big.len() as int, query.len() as int, i);
    crate::distance::lemma_distance_upto_bounds(
        crate::records::record(big, query.len() as int, i),
        query,
        query.len() as int,
    );
}

/// First matching record, scanning sixteen records per block.
pub fn block_first(records: &[u8], query: &[u8], max_dist: i64) -> (r: Option<usize>)
    requires
        query.len() > 0,
        distance_fits(query.len() as nat),
    ensures
        is_first_match(records@, query@, max_dist, 0, record_count(records@, query.len() as int), r),
{
    let width = query.len();
    let count = records.len() / width;
    if count == 0 {
        return None;
    }
    let max_bits = (width as u64) * 8;
    if max_dist < 0 || max_dist as u64 >= max_bits {
        proof {
            lemma_record_distance_le(records@, query@, 0);
        }
        return Some(0);
    }
    let limit = max_dist as u64;
    let mut index: usize = 0;
    while count - index >= BLOCK_RECORDS
        invariant
            index <= count,
            width == query.len(),
            width > 0,
            distance_fits(width as nat),
            count == record_count(records@, width as int),
            max_dist >= 0,
            limit == max_dist,
            forall|j: int| 0 <= j < index ==> !#[trigger] is_match(records@, query@, max_dist, j),
        decreases count - index,
    {
        let ds = block_distances(records, query, index, count);
        let mut lane: usize = 0;
        while lane < BLOCK_RECORDS
            invariant
                lane <= BLOCK_RECORDS,
                index + BLOCK_RECORDS <= count,
                width == query.len(),
                count == record_count(records@, width as int),
                ds.len() == BLOCK_RECORDS,
                max_dist >= 0,
                limit == max_dist,
                forall|l: int|
                    0 <= l < BLOCK_RECORDS ==> #[trigger] ds@[l] == record_distance(
                        records@,
                        query@,
                        index + l,
                    ),
                forall|j: int|
                    0 <= j < index + lane ==> !#[trigger] is_match(records@, query@, max_dist, j),
            decreases BLOCK_RECORDS - lane,
        {
            assert(ds@[lane as int] == record_distance(records@, query@, index + lane));
            if ds[lane] <= limit {
                return Some(index + lane);
            }
            lane = lane + 1;
        }
        index = index + BLOCK_RECORDS;
    }
    while index < count
        invariant
            index <= count,
            width == query.len(),
            width > 0,
            distance_fits(width as nat),
            count == record_count(records@, width as int),
            max_dist >= 0,
            limit == max_dist,
            forall|j: int| 0 <= j < index ==> !#[trigger] is_match(records@, query@, max_dist, j),
        decreases count - index,
    {
        let record = record_slice(records, width, index);
        let d = Kernel::Native.distance(record, query, -1);
        proof {
            lemma_bounded_result(record@, query@, -1i64);
        }
        if d <= limit {
            return Some(index);
        }
        index = index + 1;
    }
    None
}

/// Closest matching record, scanning sixteen records per block; after each
/// hit only strictly closer records are accepted, and an exact match ends
/// the scan.
pub fn block_best(records: &[u8], query: &[u8], max_dist: i64) -> (r: Option<(u64, usize)>)
    requires
        query.len() > 0,
        distance_fits(query.len() as nat),
    ensures
        is_best_match(records@, query@, max_dist, 0, record_count(records@, query.len() as int), r),
{
    let width = query.len();
    let count = records.len() / width;
    let mut limit = block_limit(width, max_dist);
    let mut best: Option<(u64, usize)> = None;
    let mut index: usize = 0;
    while count - index >= BLOCK_RECORDS
        invariant
            index <= count,
            width == query.len(),
            width > 0,
            distance_fits(width as nat),
            count == record_count(records@, width as int),
            is_best_match(records@, query@, max_dist, 0, index as int, best),
            best is None ==> limit == block_limit_spec(width as int, max_dist),
            best matches Some((bd, _)) ==> bd > 0 && limit == bd - 1,
            limit <= 8 * width,
        decreases count - index,
    {
        let ds = block_distances(records, query, index, count);
        let block_start_limit = limit;
        let mut lane: usize = 0;
        while lane < BLOCK_RECORDS
            invariant
                lane <= BLOCK_RECORDS,
                index + BLOCK_RECORDS <= count,
                width == query.len(),
                width > 0,
                count == record_count(records@, width as int),
                ds.len() == BLOCK_RECORDS,
                limit <= block_start_limit,
                forall|l: int|
                    0 <= l < BLOCK_RECORDS ==> #[trigger] ds@[l] == record_distance(
                        records@,
                        query@,
                        index + l,
                    ),
                is_best_match(records@, query@, max_dist, 0, index + lane, best),
                best is None ==> limit == block_limit_spec(width as int, max_dist),
                best matches Some((bd, _)) ==> bd > 0 && limit == bd - 1,
                limit <= 8 * width,
            decreases BLOCK_RECORDS - lane,
        {
            let distance = ds[lane];
            proof {
                lemma_record_distance_le(records@, query@, index + lane);
            }
            if distance <= block_start_limit && distance <= limit {
                best = Some((distance, index + lane));
                if distance == 0 {
                    proof {
                        lemma_exact_is_best(records@, query@, max_dist, count as int, index + lane);
                    }
                    return best;
                }
                limit = distance - 1;
            }
            lane = lane + 1;
        }
        index = index + BLOCK_RECORDS;
    }
    while index < count
        invariant
            index <= count,
            width == query.len(),
            width > 0,
            distance_fits(width as nat),
            count == record_count(records@, width as int),
            is_best_match(records@, query@, max_dist, 0, index as int, best),
            best is None ==> limit == block_limit_spec(width as int, max_dist),
            best matches Some((bd, _)) ==> bd > 0 && limit == bd - 1,
            limit <= 8 * width,
        decreases count - index,
    {
        let record = record_slice(records, width, index);
        let distance = Kernel::Native.distance(record, query, -1);
        proof {
            lemma_bounded_result(record@, query@, -1i64);
        }
        if distance <= limit {
            best = Some((distance, index));
            if distance == 0 {
                proof {
                    lemma_exact_is_best(records@, query@, max_dist, count as int, index as int);
                }
                return best;
            }
            limit = distance - 1;
        }
        index = index + 1;
    }
    best
}

pub open spec fn block_limit_spec(width: int, max_dist: i64) -> int {
    if max_dist < 0 || max_dist >= 8 * width {
        8 * width
    } else {
        max_dist as int
    }
}

/// An exact match at `i`, with none before it, is the best over the whole catalog.
proof fn lemma_exact_is_best(big: Seq<u8>, query: Seq<u8>, max_dist: i64, count: int, i: int)
    requires
        0 <= i < count,
        record_distance(big, query, i) == 0,
        is_best_match(big, query, max_dist, 0, i + 1, Some((0u64, i as usize))),
    ensures
        is_best_match(big, query, max_dist, 0, count, Some((0u64, i as usize))),
{
}

/// Every matching record, scanning sixteen records per block.
pub fn block_all(records: &[u8], query: &[u8], max_dist: i64) -> (r: Vec<(u64, usize)>)
    requires
        query.len() > 0,
        distance_fits(query.len() as nat),
    ensures
        r@ == all_matches(records@, query@, max_dist, 0, record_count(records@, query.len() as int)),
{
    let width = query.len();
    let count = records.len() / width;
    let limit = block_limit(width, max_dist);
    let mut matches: Vec<(u64, usize)> = Vec::new();
    let mut index: usize = 0;
    while count - index >= BLOCK_RECORDS
        invariant
            index <= count,
            width == query.len(),
            width > 0,
            distance_fits(width as nat),
            count == record_count(records@, width as int),
            limit == block_limit_spec(width as int, max_dist),
            matches@ == all_matches(records@, query@, max_dist, 0, index as int),
        decreases count - index,
    {
        let ds = block_distances(records, query, index, count);
        let mut lane: usize = 0;
        while lane < BLOCK_RECORDS
            invariant
                lane <= BLOCK_RECORDS,
                index + BLOCK_RECORDS <= count,
                width == query.len(),
                width > 0,
                count == record_count(records@, width as int),
                limit == block_limit_spec(width as int, max_dist),
                ds.len() == BLOCK_RECORDS,
                forall|l: int|
                    0 <= l < BLOCK_RECORDS ==> #[trigger] ds@[l] == record_distance(
                        records@,
                        query@,
                        index + l,
                    ),
                matches@ == all_matches(records@, query@, max_dist, 0, index + lane),
            decreases BLOCK_RECORDS - lane,
        {
            proof {
                lemma_record_distance_le(records@, query@, index + lane);
            }
            if ds[lane] <= limit {
                matches.push((ds[lane], index + lane));
            }
            lane = lane + 1;
        }
        index = index + BLOCK_RECORDS;
    }
    while index < count
        invariant
            index <= count,
            width == query.len(),
            width > 0,
            distance_fits(width as nat),
            count == record_count(records@, width as int),
            limit == block_limit_spec(width as int, max_dist),
            matches@ == all_matches(records@, query@, max_dist, 0, index as int),
        decreases count - index,
    {
        let record = record_slice(records, width, index);
        let distance = Kernel::Native.distance(record, query, -1);
        proof {
            lemma_bounded_result(record@, query@, -1i64);
            lemma_record_distance_le(records@, query@, index as int);
        }
        if distance <= limit {
            matches.push((distance, index));
        }
        index = index + 1;
    }
    matches
}

} // verus!
