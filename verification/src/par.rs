//! Chunk plans: how a large scan is split into runs of whole records that
//! can be processed independently and merged in chunk order.

use vstd::prelude::*;

verus! {

/// A scan at the parallel threshold is split into this many chunks.
pub const CHUNKS_AT_THRESHOLD: usize = 8;
/// Smallest chunk worth handing out, in bytes.
pub const MIN_CHUNK_BYTES: usize = 4096;
/// Chunks per thread, so a slow thread cannot hold up the whole scan.
pub const CHUNKS_PER_THREAD: usize = 4;
/// Records per chunk are a multiple of this, so block scanners see whole
/// blocks except at the very end.
pub const RECORD_ALIGN: usize = 16;

/// `a / b` rounded up.
pub open spec fn ceil_div(a: int, b: int) -> int {
    if a % b == 0 {
        a / b
    } else {
        a / b + 1
    }
}

/// `x` rounded up to a multiple of `m`.
pub open spec fn round_up(x: int, m: int) -> int {
    if x % m == 0 {
        x
    } else {
        x + (m - x % m)
    }
}

pub open spec fn clamp(x: int, lo: int, hi: int) -> int {
    if x < lo {
        lo
    } else if x > hi {
        hi
    } else {
        x
    }
}

pub open spec fn saturating_product(a: int, b: int) -> int {
    if a * b > usize::MAX {
        usize::MAX as int
    } else {
        a * b
    }
}

/// How to split a run of records into chunks.
#[derive(Clone, Copy, Debug, PartialEq, Eq, Structural)]
pub struct Plan {
    pub records_per_chunk: usize,
    pub chunks: usize,
}

impl Plan {
    /// The chunks cover `records` records: every chunk is non-empty and the
    /// last one ends at `records`.
    pub open spec fn covers(self, records: int) -> bool {
        &&& self.records_per_chunk > 0
        &&& self.chunks > 0
        &&& (self.chunks - 1) * self.records_per_chunk < records
        &&& records <= self.chunks * self.records_per_chunk
    }

    pub open spec fn spec_start(self, chunk: int) -> int {
        chunk * self.records_per_chunk
    }

    pub open spec fn spec_end(self, chunk: int, records: int) -> int {
        if (chunk + 1) * self.records_per_chunk < records {
            (chunk + 1) * self.records_per_chunk
        } else {
            records
        }
    }

    /// Record range `[start, end)` of `chunk`, clamped to `records`.
    pub fn range(self, chunk: usize, records: usize) -> (r: (usize, usize))
        requires
            self.covers(records as int),
            chunk < self.chunks,
        ensures
            r.0 == self.spec_start(chunk as int),
            r.1 == self.spec_end(chunk as int, records as int),
            r.0 < r.1 <= records,
    {
        proof {
            lemma_chunk_start(self, chunk as int, records as int);
        }
        let start = chunk * self.records_per_chunk;
        let end = if records - start > self.records_per_chunk {
            start + self.records_per_chunk
        } else {
            records
        };
        (start, end)
    }
}

proof fn lemma_chunk_start(p: Plan, chunk: int, records: int)
    requires
        p.covers(records),
        0 <= chunk < p.chunks,
    ensures
        0 <= chunk * p.records_per_chunk < records,
        (chunk + 1) * p.records_per_chunk == chunk * p.records_per_chunk + p.records_per_chunk,
{
    assert(chunk * p.records_per_chunk <= (p.chunks - 1) * p.records_per_chunk) by (nonlinear_arith)
        requires
            0 <= chunk <= p.chunks - 1,
            p.records_per_chunk > 0,
    ;
    assert(0 <= chunk * p.records_per_chunk) by (nonlinear_arith)
        requires
            0 <= chunk,
            p.records_per_chunk > 0,
    ;
    assert((chunk + 1) * p.records_per_chunk == chunk * p.records_per_chunk + p.records_per_chunk)
        by (nonlinear_arith);
}

/// Consecutive chunks of a covering plan meet, the first starts at 0, the
/// last ends at `records`, and none is empty: every record lies in exactly
/// one chunk.
pub proof fn lemma_plan_ranges(p: Plan, records: int)
    requires
        p.covers(records),
    ensures
        p.spec_start(0) == 0,
        p.spec_end(p.chunks - 1, records) == records,
        forall|c: int|
            0 <= c < p.chunks ==> p.spec_start(c) < #[trigger] p.spec_end(c, records) <= records,
        forall|c: int| 0 <= c < p.chunks - 1 ==> #[trigger] p.spec_end(c, records) == p.spec_start(c + 1),
{
    assert forall|c: int| 0 <= c < p.chunks implies p.spec_start(c) < #[trigger] p.spec_end(c, records)
        <= records by {
        lemma_chunk_start(p, c, records);
    }
    assert forall|c: int| 0 <= c < p.chunks - 1 implies #[trigger] p.spec_end(c, records)
        == p.spec_start(c + 1) by {
        lemma_chunk_start(p, c + 1, records);
    }
    assert((p.chunks - 1 + 1) * p.records_per_chunk == p.chunks * p.records_per_chunk);
}

fn ceil_div_exec(a: usize, b: usize) -> (r: usize)
    requires
        b > 0,
    ensures
        r == ceil_div(a as int, b as int),
{
    if a % b == 0 {
        a / b
    } else {
        proof {
            assert(a / b < a || a / b == 0) by (nonlinear_arith)
                requires
                    b > 0,
                    a % b != 0,
            ;
        }
        a / b + 1
    }
}

fn saturating_mul_exec(a: usize, b: usize) -> (r: usize)
    ensures
        r == saturating_product(a as int, b as int),
{
    match a.checked_mul(b) {
        Some(v) => v,
        None => usize::MAX,
    }
}

fn clamp_exec(x: usize, lo: usize, hi: usize) -> (r: usize)
    requires
        lo <= hi,
    ensures
        r == clamp(x as int, lo as int, hi as int),
{
    if x < lo {
        lo
    } else if x > hi {
        hi
    } else {
        x
    }
}

proof fn lemma_ceil_div_props(a: int, b: int)
    requires
        a > 0,
        b > 0,
    ensures
        ceil_div(a, b) > 0,
        (ceil_div(a, b) - 1) * b < a <= ceil_div(a, b) * b,
        b >= 2 ==> ceil_div(a, b) <= a / 2 + 1,
        ceil_div(a, b) <= a,
{
    assert((ceil_div(a, b) - 1) * b < a <= ceil_div(a, b) * b && ceil_div(a, b) > 0 && ceil_div(a, b) <= a
        && (b >= 2 ==> ceil_div(a, b) <= a / 2 + 1)) by (nonlinear_arith)
        requires
            a > 0,
            b > 0,
            ceil_div(a, b) == if a % b == 0 {
                a / b
            } else {
                a / b + 1
            },
    ;
}

/// The plan for a chunk target: chunk sizes rounded to whole blocks.
pub open spec fn spec_split_plan(records: int, chunks: int) -> Plan {
    let records_per_chunk = round_up(ceil_div(records, chunks), RECORD_ALIGN as int);
    Plan {
        records_per_chunk: records_per_chunk as usize,
        chunks: ceil_div(records, records_per_chunk) as usize,
    }
}

/// Number of chunks aimed at when splitting `bytes` bytes for a threshold
/// of `min_bytes` on `threads` threads.
pub open spec fn spec_chunk_target(bytes: int, min_bytes: int, threads: int, cap: int) -> int {
    let per = if min_bytes / CHUNKS_AT_THRESHOLD as int > MIN_CHUNK_BYTES as int {
        min_bytes / CHUNKS_AT_THRESHOLD as int
    } else {
        MIN_CHUNK_BYTES as int
    };
    clamp(bytes / per, 2, cap)
}

/// The plan `split` chooses.
pub open spec fn spec_split(records: int, width: int, min_bytes: int, threads: int) -> Option<Plan> {
    if records < 2 * RECORD_ALIGN || threads < 2 {
        None
    } else {
        Some(
            spec_split_plan(
                records,
                spec_chunk_target(
                    saturating_product(records, width),
                    min_bytes,
                    threads,
                    threads * CHUNKS_PER_THREAD,
                ),
            ),
        )
    }
}

/// Chunk plan for `records` records of `width` bytes, sized for a parallel
/// threshold of `min_bytes` (a scan of that size gets `CHUNKS_AT_THRESHOLD`
/// chunks), without requiring this scan to reach it. `None` when there are
/// too few records to split or only one thread.
pub fn split(records: usize, width: usize, min_bytes: usize, threads: usize) -> (r: Option<Plan>)
    requires
        threads <= usize::MAX / CHUNKS_PER_THREAD,
    ensures
        r == spec_split(records as int, width as int, min_bytes as int, threads as int),
        r matches Some(p) ==> p.covers(records as int) && p.records_per_chunk % RECORD_ALIGN == 0,
{
    let bytes = saturating_mul_exec(records, width);
    if records < 2 * RECORD_ALIGN {
        return None;
    }
    if threads < 2 {
        return None;
    }
    let per = min_bytes / CHUNKS_AT_THRESHOLD;
    let chunk_bytes = if per > MIN_CHUNK_BYTES {
        per
    } else {
        MIN_CHUNK_BYTES
    };
    let chunks = clamp_exec(bytes / chunk_bytes, 2, threads * CHUNKS_PER_THREAD);
    Some(plan_from_target(records, chunks))
}

/// Plan for `records` records in about `chunks` chunks of whole blocks.
fn plan_from_target(records: usize, chunks: usize) -> (p: Plan)
    requires
        records > 0,
        chunks >= 2,
    ensures
        p == spec_split_plan(records as int, chunks as int),
        p.covers(records as int),
        p.records_per_chunk % RECORD_ALIGN == 0,
{
    let per_chunk = ceil_div_exec(records, chunks);
    proof {
        lemma_ceil_div_props(records as int, chunks as int);
    }
    let rem = per_chunk % RECORD_ALIGN;
    let records_per_chunk = if rem == 0 {
        per_chunk
    } else {
        per_chunk + (RECORD_ALIGN - rem)
    };
    proof {
        lemma_ceil_div_props(records as int, records_per_chunk as int);
    }
    let total = ceil_div_exec(records, records_per_chunk);
    Plan { records_per_chunk, chunks: total }
}

/// Chunk plan for `records` records of `width` bytes, or `None` when the scan
/// (under `min_bytes`) is too small to be worth splitting.
pub fn plan(records: usize, width: usize, min_bytes: usize, threads: usize) -> (r: Option<Plan>)
    requires
        threads <= usize::MAX / CHUNKS_PER_THREAD,
    ensures
        saturating_product(records as int, width as int) < min_bytes ==> r is None,
        saturating_product(records as int, width as int) >= min_bytes ==> r == spec_split(
            records as int,
            width as int,
            min_bytes as int,
            threads as int,
        ),
        r matches Some(p) ==> p.covers(records as int) && p.records_per_chunk % RECORD_ALIGN == 0,
{
    if saturating_mul_exec(records, width) < min_bytes {
        return None;
    }
    split(records, width, min_bytes, threads)
}

/// Chunk plan for `items` independent jobs of `bytes_per_item` bytes each, or
/// `None` when the total is under `min_bytes`.
pub fn plan_items(items: usize, bytes_per_item: usize, min_bytes: usize, threads: usize) -> (r:
    Option<Plan>)
    requires
        threads <= usize::MAX / CHUNKS_PER_THREAD,
    ensures
        (items < 2 || saturating_product(items as int, bytes_per_item as int) < min_bytes
            || threads < 2) <==> r is None,
        r matches Some(p) ==> {
            let target = spec_chunk_target(
                saturating_product(items as int, bytes_per_item as int),
                min_bytes as int,
                threads as int,
                if items < threads * CHUNKS_PER_THREAD {
                    items as int
                } else {
                    threads * CHUNKS_PER_THREAD
                },
            );
            &&& p.records_per_chunk == ceil_div(items as int, target)
            &&& p.chunks == ceil_div(items as int, p.records_per_chunk as int)
            &&& p.covers(items as int)
        },
{
    let bytes = saturating_mul_exec(items, bytes_per_item);
    if items < 2 || bytes < min_bytes {
        return None;
    }
    if threads < 2 {
        return None;
    }
    let per = min_bytes / CHUNKS_AT_THRESHOLD;
    let chunk_bytes = if per > MIN_CHUNK_BYTES {
        per
    } else {
        MIN_CHUNK_BYTES
    };
    let cap = if items < threads * CHUNKS_PER_THREAD {
        items
    } else {
        threads * CHUNKS_PER_THREAD
    };
    let chunks = clamp_exec(bytes / chunk_bytes, 2, cap);
    let per_chunk = ceil_div_exec(items, chunks);
    proof {
        lemma_ceil_div_props(items as int, chunks as int);
        lemma_ceil_div_props(items as int, per_chunk as int);
    }
    let total = ceil_div_exec(items, per_chunk);
    Some(Plan { records_per_chunk: per_chunk, chunks: total })
}

} // verus!
