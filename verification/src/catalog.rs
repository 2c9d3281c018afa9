//! Persistent fixed-width catalogs that serve repeated queries.

use vstd::prelude::*;
use crate::api::{
    bytes_array_all_within_dist, bytes_array_best_within_dist, bytes_array_first_within_dist,
};
use crate::batch::{
    bytes_array_all_many_within_dist, bytes_array_best_many_within_dist,
    bytes_array_first_many_within_dist,
};
use crate::distance::{distance_fits, hamming, within};
use crate::records::{
    all_matches, is_best_match, is_first_match, is_match, record, record_count, record_distance,
    strictly_by_index, lemma_all_matches_unique, lemma_record_bounds,
};
use crate::mih::{
    MihIndex, planned_m, planned_radius, part_dist, index_bytes, query_cost_scaled,
    serial_scan_cost, scan_divisor, serial_scan_cost_exec, scan_divisor_exec,
    PROBE_MISS_SATURATION_BYTES, PARALLEL_SPEEDUP_BYTES, lemma_pigeonhole, index_determines,
    sort_dedup_by_index, MAX_M, MAX_SUB_BITS, MAX_PROBE_RADIUS,
};
use crate::api::{parallel_threshold, has_block_scanner, is_block_width};
use crate::bits::lemma_hamming_bits;
use crate::scan::{Kernel, record_slice, lemma_bounded_result};

verus! {

pub const ERR_ZERO_WIDTH: &'static str = "width must be >0";
pub const ERR_RECORDS_NOT_MULTIPLE: &'static str = "records size must be multiplier of width";
pub const ERR_QUERY_WIDTH: &'static str = "query size must equal catalog width";
pub const ERR_QUERIES_NOT_MULTIPLE: &'static str = "queries size must be multiplier of catalog width";

/// The error a record buffer is rejected with, if any.
pub open spec fn records_error(records: Seq<u8>, width: usize) -> Option<&'static str> {
    if width == 0 {
        Some(ERR_ZERO_WIDTH)
    } else if records.len() % (width as nat) != 0 {
        Some(ERR_RECORDS_NOT_MULTIPLE)
    } else {
        None
    }
}

fn validate_records(records: &[u8], width: usize) -> (r: Result<(), &'static str>)
    ensures
        records_error(records@, width) matches Some(e) ==> r == Err::<(), &'static str>(e),
        records_error(records@, width) is None ==> r is Ok,
{
    if width == 0 {
        return Err(ERR_ZERO_WIDTH);
    }
    if records.len() % width != 0 {
        return Err(ERR_RECORDS_NOT_MULTIPLE);
    }
    Ok(())
}

/// An owned catalog of fixed-width records, optionally with a multi-index.
pub struct Catalog {
    records: Vec<u8>,
    width: usize,
    index: Option<MihIndex>,
}

/// Scan size, in bytes, from which a linear scan of `width`-byte records is split.
pub open spec fn scan_threshold(width: usize) -> int {
    if is_block_width(width) {
        524288
    } else {
        65536
    }
}

/// A match of the catalog is among the index's candidates when the probe
/// radius covers the threshold.
proof fn lemma_match_is_candidate(
    ix: MihIndex,
    catalog: Seq<u8>,
    width: int,
    query: Seq<u8>,
    max_dist: i64,
    t: u32,
    c: Seq<u32>,
    r: int,
)
    requires
        ix.wf(catalog, width),
        0 < width,
        query.len() == width,
        0 <= max_dist,
        max_dist as int / (ix.params.m as int) <= t,
        0 <= r < catalog.len() as int / width,
        is_match(catalog, query, max_dist, r),
        forall|q: int|
            0 <= q < catalog.len() as int / width && (exists|j: int|
                0 <= j < ix.params.m && #[trigger] part_dist(
                    record(catalog, width, q),
                    query,
                    ix.params.s_bits@,
                    j,
                ) <= t) ==> #[trigger] c.contains(q as u32),
    ensures
        c.contains(r as u32),
        catalog.len() as int / width <= u32::MAX,
{
    assert(ix.tables@[0].wf(catalog, width));
    lemma_record_bounds(catalog.len() as int, width, r);
    let rec = record(catalog, width, r);
    assert(rec.len() == width);
    lemma_hamming_bits(rec, query);
    assert(record_distance(catalog, query, r) == hamming(rec, query));
    lemma_pigeonhole(rec, query, ix.params.s_bits@, ix.params.m as int, max_dist as int);
    let j = choose|j: int| 0 <= j < ix.params.m && #[trigger] part_dist(rec, query, ix.params.s_bits@, j) <= max_dist as int / (ix.params.m as int);
    assert(part_dist(rec, query, ix.params.s_bits@, j) <= t);
}

impl Catalog {
    #[verifier::type_invariant]
    spec fn inv(&self) -> bool {
        &&& self.width > 0
        &&& self.records@.len() % (self.width as nat) == 0
        &&& distance_fits(self.width as nat)
        &&& self.index matches Some(ix) ==> ix.wf(self.records@, self.width as int)
    }

    /// The catalog's multi-index, if it has one.
    pub closed spec fn spec_index(&self) -> Option<MihIndex> {
        self.index
    }

    /// The catalog's bytes.
    pub closed spec fn spec_records(&self) -> Seq<u8> {
        self.records@
    }

    /// The record width in bytes.
    pub closed spec fn spec_width(&self) -> usize {
        self.width
    }

    /// Copies `records` into a catalog of `width`-byte records.
    pub fn new(records: &[u8], width: usize) -> (r: Result<Catalog, &'static str>)
        requires
            distance_fits(width as nat),
        ensures
            records_error(records@, width) matches Some(e) ==> r is Err && r->Err_0 == e,
            records_error(records@, width) is None ==> r is Ok && r->Ok_0.spec_records() == records@
                && r->Ok_0.spec_width() == width && r->Ok_0.spec_index() is None,
    {
        validate_records(records, width)?;
        Ok(Catalog { records: vstd::slice::slice_to_vec(records), width, index: None })
    }

    /// Copies `records` and builds a multi-index when the codes can be cut
    /// into at most 64 substrings of at most 22 bits and there are between
    /// 1 and `u32::MAX` records; otherwise the catalog stays linear.
    pub fn with_index(records: &[u8], width: usize) -> (r: Result<Catalog, &'static str>)
        requires
            distance_fits(width as nat),
        ensures
            records_error(records@, width) matches Some(e) ==> r is Err && r->Err_0 == e,
            records_error(records@, width) is None ==> r is Ok && r->Ok_0.spec_records() == records@
                && r->Ok_0.spec_width() == width && (r->Ok_0.spec_index() is Some <==> (1
                <= record_count(records@, width as int) <= u32::MAX && 8 * width <= MAX_M
                * MAX_SUB_BITS)) && (r->Ok_0.spec_index() matches Some(ix) ==> ix.params.m
                == planned_m(8 * width, record_count(records@, width as int))),
    {
        validate_records(records, width)?;
        let index = MihIndex::build(records, width);
        let owned = vstd::slice::slice_to_vec(records);
        Ok(Catalog { records: owned, width, index })
    }

    /// Whether the catalog has a multi-index.
    pub fn has_index(&self) -> (r: bool)
        ensures
            r == self.spec_index() is Some,
    {
        self.index.is_some()
    }

    /// Number of substrings the index cuts codes into, if there is an index.
    pub fn index_substring_count(&self) -> (r: Option<usize>)
        ensures
            r == match self.spec_index() {
                Some(ix) => Some(ix.params.m),
                None => None::<usize>,
            },
    {
        match &self.index {
            Some(ix) => Some(ix.params.m),
            None => None,
        }
    }

    /// Bytes used by the index's bucket tables (saturating at `usize::MAX`),
    /// excluding the owned record bytes; 0 without an index.
    pub fn index_memory_overhead_bytes(&self) -> (r: usize)
        ensures
            r == match self.spec_index() {
                Some(ix) => index_bytes(
                    ix.params.s_bits@,
                    ix.params.m as int,
                    record_count(self.spec_records(), self.spec_width() as int),
                ),
                None => 0,
            },
    {
        proof {
            use_type_invariant(self);
        }
        match &self.index {
            Some(ix) => ix.memory_overhead_bytes(Ghost(self.records@), Ghost(self.width as int)),
            None => 0,
        }
    }

    /// Probe radius the catalog uses for `max_dist`, or `None` when it scans linearly.
    pub open spec fn spec_radius(&self, max_dist: i64) -> Option<u32> {
        match self.spec_index() {
            Some(ix) => planned_radius(
                ix.params.s_bits@,
                ix.params.m as int,
                index_bytes(
                    ix.params.s_bits@,
                    ix.params.m as int,
                    record_count(self.spec_records(), self.spec_width() as int),
                ),
                max_dist,
                record_count(self.spec_records(), self.spec_width() as int),
                self.spec_width() as int,
                scan_threshold(self.spec_width()),
            ),
            None => None,
        }
    }

    /// Estimated cost of one query at `max_dist`, in units of 1e-4 ns, with
    /// the strategy the catalog chooses (probing the index or a linear scan).
    pub open spec fn spec_query_cost(&self, max_dist: i64) -> int {
        let n = record_count(self.spec_records(), self.spec_width() as int);
        let w = self.spec_width() as int;
        match self.spec_radius(max_dist) {
            Some(t) => query_cost_scaled(
                self.spec_index()->Some_0.params.s_bits@,
                self.spec_index()->Some_0.params.m as int,
                t as nat,
                index_bytes(
                    self.spec_index()->Some_0.params.s_bits@,
                    self.spec_index()->Some_0.params.m as int,
                    n,
                ),
            ) / (PROBE_MISS_SATURATION_BYTES as int),
            None => serial_scan_cost(n, w) * PARALLEL_SPEEDUP_BYTES / scan_divisor(
                n,
                w,
                scan_threshold(self.spec_width()),
            ),
        }
    }

    fn index_for_radius(&self, max_dist: i64) -> (r: Option<u32>)
        ensures
            r == self.spec_radius(max_dist),
            r matches Some(t) ==> self.spec_index() is Some && 0 <= max_dist && t <= MAX_PROBE_RADIUS
                && max_dist as int / (self.spec_index()->Some_0.params.m as int) <= t,
    {
        proof {
            use_type_invariant(self);
        }
        match &self.index {
            Some(ix) => {
                let mem = ix.memory_overhead_bytes(Ghost(self.records@), Ghost(self.width as int));
                let threshold = parallel_threshold(has_block_scanner(self.width));
                ix.probe_radius(
                    max_dist,
                    self.records.len() / self.width,
                    self.width,
                    mem,
                    threshold,
                    Ghost(self.records@),
                    Ghost(self.width as int),
                )
            },
            None => None,
        }
    }

    /// Number of records.
    pub fn len(&self) -> (r: usize)
        ensures
            r == record_count(self.spec_records(), self.spec_width() as int),
    {
        proof {
            use_type_invariant(self);
        }
        self.records.len() / self.width
    }

    pub fn is_empty(&self) -> (r: bool)
        ensures
            r == (self.spec_records().len() == 0),
    {
        self.records.len() == 0
    }

    /// The record width, which is positive; the catalog holds whole records.
    pub fn width(&self) -> (r: usize)
        ensures
            r == self.spec_width(),
            r > 0,
            self.spec_records().len() % (r as nat) == 0,
            distance_fits(r as nat),
    {
        proof {
            use_type_invariant(self);
        }
        self.width
    }

    pub fn records(&self) -> (r: &[u8])
        ensures
            r@ == self.spec_records(),
    {
        self.records.as_slice()
    }

    /// Estimated cost of one query at `max_dist`, in units of 1e-4 ns.
    pub fn estimated_query_cost(&self, max_dist: i64) -> (r: u128)
        ensures
            r == self.spec_query_cost(max_dist),
    {
        proof {
            use_type_invariant(self);
        }
        let n = self.records.len() / self.width;
        match self.index_for_radius(max_dist) {
            Some(t) => match &self.index {
                Some(ix) => {
                    let mem = ix.memory_overhead_bytes(Ghost(self.records@), Ghost(self.width as int));
                    ix.query_cost_scaled(t, mem, Ghost(self.records@), Ghost(self.width as int))
                        / PROBE_MISS_SATURATION_BYTES
                },
                None => 0,
            },
            None => {
                let threshold = parallel_threshold(has_block_scanner(self.width));
                let serial = serial_scan_cost_exec(n, self.width);
                let divisor = scan_divisor_exec(n, self.width, threshold);
                proof {
                    assert(serial <= (usize::MAX as int) * 1100 + (usize::MAX as int) * 133) by (nonlinear_arith)
                        requires
                            serial == serial_scan_cost(n as int, self.width as int),
                            n <= usize::MAX,
                            crate::mih::scan_bytes(n as int, self.width as int) <= usize::MAX,
                            0 <= crate::mih::scan_bytes(n as int, self.width as int),
                    ;
                    assert(usize::MAX <= u64::MAX);
                    assert(serial * PARALLEL_SPEEDUP_BYTES <= ((usize::MAX as int) * 1100 + (usize::MAX as int) * 133) * PARALLEL_SPEEDUP_BYTES) by (nonlinear_arith)
                        requires
                            serial <= (usize::MAX as int) * 1100 + (usize::MAX as int) * 133,
                    ;
                }
                serial * PARALLEL_SPEEDUP_BYTES / divisor
            },
        }
    }

    /// Record `record_id` of the catalog.
    fn record(&self, record_id: u32) -> (r: &[u8])
        requires
            (record_id as int) < record_count(self.spec_records(), self.spec_width() as int),
        ensures
            r@ == record(self.spec_records(), self.spec_width() as int, record_id as int),
            r@.len() == self.spec_width(),
    {
        proof {
            use_type_invariant(self);
        }
        record_slice(self.records.as_slice(), self.width, record_id as usize)
    }

    /// Indexed search for the first record within `max_dist` of `query`,
    /// probing the tables at `probe_radius`. Candidates arrive unordered and
    /// possibly repeated, so the lowest matching index is kept explicitly.
    pub fn indexed_first(&self, query: &[u8], max_dist: i64, probe_radius: u32) -> (r: Option<usize>)
        requires
            self.spec_index() is Some,
            query@.len() == self.spec_width(),
            0 <= max_dist,
            max_dist as int / (self.spec_index()->Some_0.params.m as int) <= probe_radius
                <= MAX_PROBE_RADIUS,
        ensures
            is_first_match(
                self.spec_records(),
                query@,
                max_dist,
                0,
                record_count(self.spec_records(), self.spec_width() as int),
                r,
            ),
    {
        proof {
            use_type_invariant(self);
        }
        let ghost catalog = self.records@;
        let ghost w = self.width as int;
        let ghost n = record_count(catalog, w);
        let ix = match &self.index {
            Some(ix) => ix,
            None => {
                return None;
            },
        };
        let cands = ix.candidates(Ghost(catalog), Ghost(w), query, probe_radius);
        let mut first: Option<u32> = None;
        let mut i: usize = 0;
        while i < cands.len()
            invariant
                self.inv(),
                catalog == self.records@,
                w == self.width,
                n == record_count(catalog, w),
                query@.len() == w,
                0 <= max_dist,
                forall|k: int| 0 <= k < cands@.len() ==> (cands@[k] as int) < n,
                0 <= i <= cands@.len(),
                first matches Some(f) ==> (f as int) < n && is_match(catalog, query@, max_dist, f as int),
                forall|k: int|
                    0 <= k < i && is_match(catalog, query@, max_dist, #[trigger] cands@[k] as int)
                        ==> (first matches Some(f) && f <= cands@[k]),
            decreases cands@.len() - i,
        {
            let id = cands[i];
            let skip = match first {
                Some(f) => id >= f,
                None => false,
            };
            if !skip {
                let rec = self.record(id);
                proof {
                    lemma_bounded_result(rec@, query@, max_dist);
                }
                if Kernel::Native.distance(rec, query, max_dist) != u64::MAX {
                    first = Some(id);
                }
            }
            i = i + 1;
        }
        proof {
            assert forall|j: int| 0 <= j < n && is_match(catalog, query@, max_dist, j) implies (first matches Some(f) && f <= j) by {
                lemma_match_is_candidate(*ix, catalog, w, query@, max_dist, probe_radius, cands@, j);
                let k = choose|k: int| 0 <= k < cands@.len() && cands@[k] == j as u32;
                assert(is_match(catalog, query@, max_dist, cands@[k] as int));
            }
        }
        match first {
            Some(f) => Some(f as usize),
            None => None,
        }
    }

    /// Indexed search for the closest record within `max_dist` of `query`
    /// (the lowest index among equally close ones), probing at `probe_radius`.
    pub fn indexed_best(&self, query: &[u8], max_dist: i64, probe_radius: u32) -> (r: Option<(u64, usize)>)
        requires
            self.spec_index() is Some,
            query@.len() == self.spec_width(),
            0 <= max_dist,
            max_dist as int / (self.spec_index()->Some_0.params.m as int) <= probe_radius
                <= MAX_PROBE_RADIUS,
        ensures
            is_best_match(
                self.spec_records(),
                query@,
                max_dist,
                0,
                record_count(self.spec_records(), self.spec_width() as int),
                r,
            ),
    {
        proof {
            use_type_invariant(self);
        }
        let ghost catalog = self.records@;
        let ghost w = self.width as int;
        let ghost n = record_count(catalog, w);
        let ix = match &self.index {
            Some(ix) => ix,
            None => {
                return None;
            },
        };
        let cands = ix.candidates(Ghost(catalog), Ghost(w), query, probe_radius);
        let mut best: Option<(u64, u32)> = None;
        let mut i: usize = 0;
        while i < cands.len()
            invariant
                self.inv(),
                catalog == self.records@,
                w == self.width,
                n == record_count(catalog, w),
                query@.len() == w,
                0 <= max_dist,
                forall|k: int| 0 <= k < cands@.len() ==> (cands@[k] as int) < n,
                0 <= i <= cands@.len(),
                best matches Some(b) ==> (b.1 as int) < n && is_match(catalog, query@, max_dist, b.1 as int)
                    && b.0 == record_distance(catalog, query@, b.1 as int) && b.0 <= max_dist,
                forall|k: int|
                    0 <= k < i && is_match(catalog, query@, max_dist, #[trigger] cands@[k] as int)
                        ==> (best matches Some(b) && (b.0 < record_distance(catalog, query@, cands@[k] as int)
                        || (b.0 == record_distance(catalog, query@, cands@[k] as int) && b.1 <= cands@[k]))),
            decreases cands@.len() - i,
        {
            let id = cands[i];
            // Admit ties so a lower index at the same distance can win.
            let limit: i64 = match best {
                Some(b) => b.0 as i64,
                None => max_dist,
            };
            let rec = self.record(id);
            proof {
                lemma_bounded_result(rec@, query@, limit);
                lemma_bounded_result(rec@, query@, max_dist);
            }
            let distance = Kernel::Native.distance(rec, query, limit);
            if distance != u64::MAX {
                let better = match best {
                    None => true,
                    Some(b) => distance < b.0 || (distance == b.0 && id < b.1),
                };
                if better {
                    best = Some((distance, id));
                }
            }
            i = i + 1;
        }
        proof {
            assert forall|j: int| 0 <= j < n && is_match(catalog, query@, max_dist, j) implies (best matches Some(b) && (b.0 < record_distance(catalog, query@, j)
                || (b.0 == record_distance(catalog, query@, j) && b.1 <= j))) by {
                lemma_match_is_candidate(*ix, catalog, w, query@, max_dist, probe_radius, cands@, j);
                let k = choose|k: int| 0 <= k < cands@.len() && cands@[k] == j as u32;
                assert(is_match(catalog, query@, max_dist, cands@[k] as int));
            }
        }
        match best {
            Some(b) => Some((b.0, b.1 as usize)),
            None => None,
        }
    }

    /// Indexed search for every record within `max_dist` of `query`, in index
    /// order, probing at `probe_radius`.
    pub fn indexed_all(&self, query: &[u8], max_dist: i64, probe_radius: u32) -> (r: Vec<(u64, usize)>)
        requires
            self.spec_index() is Some,
            query@.len() == self.spec_width(),
            0 <= max_dist,
            max_dist as int / (self.spec_index()->Some_0.params.m as int) <= probe_radius
                <= MAX_PROBE_RADIUS,
        ensures
            r@ == all_matches(
                self.spec_records(),
                query@,
                max_dist,
                0,
                record_count(self.spec_records(), self.spec_width() as int),
            ),
    {
        proof {
            use_type_invariant(self);
        }
        let ghost catalog = self.records@;
        let ghost w = self.width as int;
        let ghost n = record_count(catalog, w);
        let ix = match &self.index {
            Some(ix) => ix,
            None => {
                return Vec::new();
            },
        };
        let cands = ix.candidates(Ghost(catalog), Ghost(w), query, probe_radius);
        let mut matches: Vec<(u64, usize)> = Vec::new();
        let mut i: usize = 0;
        while i < cands.len()
            invariant
                self.inv(),
                catalog == self.records@,
                w == self.width,
                n == record_count(catalog, w),
                query@.len() == w,
                0 <= max_dist,
                forall|k: int| 0 <= k < cands@.len() ==> (cands@[k] as int) < n,
                0 <= i <= cands@.len(),
                forall|k: int|
                    0 <= k < matches@.len() ==> (#[trigger] matches@[k]).1 < n && is_match(
                        catalog,
                        query@,
                        max_dist,
                        matches@[k].1 as int,
                    ) && matches@[k].0 == record_distance(catalog, query@, matches@[k].1 as int) as u64,
                forall|k: int|
                    0 <= k < i && is_match(catalog, query@, max_dist, #[trigger] cands@[k] as int)
                        ==> matches@.contains(
                        (record_distance(catalog, query@, cands@[k] as int) as u64, cands@[k] as usize),
                    ),
            decreases cands@.len() - i,
        {
            let id = cands[i];
            let rec = self.record(id);
            proof {
                lemma_bounded_result(rec@, query@, max_dist);
            }
            let distance = Kernel::Native.distance(rec, query, max_dist);
            if distance != u64::MAX {
                let ghost before = matches@;
                matches.push((distance, id as usize));
                proof {
                    assert forall|k: int|
                        0 <= k < i + 1 && is_match(catalog, query@, max_dist, #[trigger] cands@[k] as int)
                            implies matches@.contains(
                            (record_distance(catalog, query@, cands@[k] as int) as u64, cands@[k] as usize),
                        ) by {
                        let x = (record_distance(catalog, query@, cands@[k] as int) as u64, cands@[k] as usize);
                        if k < i {
                            let wk = choose|wk: int| 0 <= wk < before.len() && before[wk] == x;
                            assert(matches@[wk] == x);
                        } else {
                            assert(matches@[matches@.len() - 1] == x);
                        }
                    }
                }
            }
            i = i + 1;
        }
        proof {
            assert(index_determines(matches@));
        }
        let sorted = sort_dedup_by_index(matches.as_slice());
        proof {
            assert forall|k: int| 0 <= k < sorted@.len() implies 0 <= (#[trigger] sorted@[k]).1 < n
                && is_match(catalog, query@, max_dist, sorted@[k].1 as int) && sorted@[k].0
                == record_distance(catalog, query@, sorted@[k].1 as int) as u64 by {
                assert(sorted@.contains(sorted@[k]));
                let wk = choose|wk: int| 0 <= wk < matches@.len() && matches@[wk] == sorted@[k];
            }
            assert forall|j: int| 0 <= j < n && is_match(catalog, query@, max_dist, j) implies exists|k: int|
                0 <= k < sorted@.len() && (#[trigger] sorted@[k]).1 == j by {
                lemma_match_is_candidate(*ix, catalog, w, query@, max_dist, probe_radius, cands@, j);
                let k = choose|k: int| 0 <= k < cands@.len() && cands@[k] == j as u32;
                assert(is_match(catalog, query@, max_dist, cands@[k] as int));
                let x = (record_distance(catalog, query@, j) as u64, j as usize);
                assert(matches@.contains(x));
                assert(sorted@.contains(x));
                let ks = choose|ks: int| 0 <= ks < sorted@.len() && sorted@[ks] == x;
                assert(sorted@[ks].1 == j);
            }
            lemma_all_matches_unique(catalog, query@, max_dist, 0, n, sorted@);
        }
        sorted
    }

    /// First record within `max_dist` of `query`.
    pub fn first_within(&self, query: &[u8], max_dist: i64) -> (r: Result<Option<usize>, &'static str>)
        ensures
            query.len() != self.spec_width() ==> r == Err::<Option<usize>, &'static str>(
                ERR_QUERY_WIDTH,
            ),
            query.len() == self.spec_width() ==> (r matches Ok(found) && is_first_match(
                self.spec_records(),
                query@,
                max_dist,
                0,
                record_count(self.spec_records(), self.spec_width() as int),
                found,
            )),
    {
        proof {
            use_type_invariant(self);
        }
        if query.len() != self.width {
            return Err(ERR_QUERY_WIDTH);
        }
        if let Some(t) = self.index_for_radius(max_dist) {
            return Ok(self.indexed_first(query, max_dist, t));
        }
        bytes_array_first_within_dist(self.records.as_slice(), query, max_dist)
    }

    /// Closest record within `max_dist` of `query`.
    pub fn best_within(&self, query: &[u8], max_dist: i64) -> (r: Result<
        Option<(u64, usize)>,
        &'static str,
    >)
        ensures
            query.len() != self.spec_width() ==> r == Err::<Option<(u64, usize)>, &'static str>(
                ERR_QUERY_WIDTH,
            ),
            query.len() == self.spec_width() ==> (r matches Ok(found) && is_best_match(
                self.spec_records(),
                query@,
                max_dist,
                0,
                record_count(self.spec_records(), self.spec_width() as int),
                found,
            )),
    {
        proof {
            use_type_invariant(self);
        }
        if query.len() != self.width {
            return Err(ERR_QUERY_WIDTH);
        }
        if let Some(t) = self.index_for_radius(max_dist) {
            return Ok(self.indexed_best(query, max_dist, t));
        }
        bytes_array_best_within_dist(self.records.as_slice(), query, max_dist)
    }

    /// Every record within `max_dist` of `query`, in index order.
    pub fn all_within(&self, query: &[u8], max_dist: i64) -> (r: Result<
        Vec<(u64, usize)>,
        &'static str,
    >)
        ensures
            query.len() != self.spec_width() ==> r is Err && r->Err_0 == ERR_QUERY_WIDTH,
            query.len() == self.spec_width() ==> r is Ok && r->Ok_0@ == all_matches(
                self.spec_records(),
                query@,
                max_dist,
                0,
                record_count(self.spec_records(), self.spec_width() as int),
            ),
    {
        proof {
            use_type_invariant(self);
        }
        if query.len() != self.width {
            return Err(ERR_QUERY_WIDTH);
        }
        if let Some(t) = self.index_for_radius(max_dist) {
            return Ok(self.indexed_all(query, max_dist, t));
        }
        bytes_array_all_within_dist(self.records.as_slice(), query, max_dist)
    }

    /// `first_within` for every `width`-byte query of `queries`, in order.
    pub fn first_many_within(&self, queries: &[u8], max_dist: i64) -> (r: Result<
        Vec<Option<usize>>,
        &'static str,
    >)
        ensures
            queries@.len() % (self.spec_width() as nat) != 0 ==> r == Err::<
                Vec<Option<usize>>,
                &'static str,
            >(ERR_QUERIES_NOT_MULTIPLE),
            queries@.len() % (self.spec_width() as nat) == 0 ==> r is Ok && r->Ok_0@.len()
                == record_count(queries@, self.spec_width() as int) && forall|q: int|
                0 <= q < r->Ok_0@.len() ==> is_first_match(
                    self.spec_records(),
                    record(queries@, self.spec_width() as int, q),
                    max_dist,
                    0,
                    record_count(self.spec_records(), self.spec_width() as int),
                    #[trigger] r->Ok_0@[q],
                ),
    {
        proof {
            use_type_invariant(self);
        }
        if queries.len() % self.width != 0 {
            return Err(ERR_QUERIES_NOT_MULTIPLE);
        }
        let t = match self.index_for_radius(max_dist) {
            Some(t) => t,
            None => {
                return bytes_array_first_many_within_dist(
                    self.records.as_slice(),
                    queries,
                    self.width,
                    max_dist,
                );
            },
        };
        let count = queries.len() / self.width;
        let mut out: Vec<Option<usize>> = Vec::new();
        let mut q: usize = 0;
        while q < count
            invariant
                self.inv(),
                self.spec_index() is Some,
                0 <= max_dist,
                max_dist as int / (self.spec_index()->Some_0.params.m as int) <= t <= MAX_PROBE_RADIUS,
                count == record_count(queries@, self.spec_width() as int),
                0 <= q <= count,
                out@.len() == q,
                forall|j: int|
                    0 <= j < q ==> is_first_match(
                        self.spec_records(),
                        record(queries@, self.spec_width() as int, j),
                        max_dist,
                        0,
                        record_count(self.spec_records(), self.spec_width() as int),
                        #[trigger] out@[j],
                    ),
            decreases count - q,
        {
            let query = record_slice(queries, self.width, q);
            let found = self.indexed_first(query, max_dist, t);
            out.push(found);
            q = q + 1;
        }
        Ok(out)
    }

    /// `best_within` for every `width`-byte query of `queries`, in order.
    pub fn best_many_within(&self, queries: &[u8], max_dist: i64) -> (r: Result<
        Vec<Option<(u64, usize)>>,
        &'static str,
    >)
        ensures
            queries@.len() % (self.spec_width() as nat) != 0 ==> r == Err::<
                Vec<Option<(u64, usize)>>,
                &'static str,
            >(ERR_QUERIES_NOT_MULTIPLE),
            queries@.len() % (self.spec_width() as nat) == 0 ==> r is Ok && r->Ok_0@.len()
                == record_count(queries@, self.spec_width() as int) && forall|q: int|
                0 <= q < r->Ok_0@.len() ==> is_best_match(
                    self.spec_records(),
                    record(queries@, self.spec_width() as int, q),
                    max_dist,
                    0,
                    record_count(self.spec_records(), self.spec_width() as int),
                    #[trigger] r->Ok_0@[q],
                ),
    {
        proof {
            use_type_invariant(self);
        }
        if queries.len() % self.width != 0 {
            return Err(ERR_QUERIES_NOT_MULTIPLE);
        }
        let t = match self.index_for_radius(max_dist) {
            Some(t) => t,
            None => {
                return bytes_array_best_many_within_dist(
                    self.records.as_slice(),
                    queries,
                    self.width,
                    max_dist,
                );
            },
        };
        let count = queries.len() / self.width;
        let mut out: Vec<Option<(u64, usize)>> = Vec::new();
        let mut q: usize = 0;
        while q < count
            invariant
                self.inv(),
                self.spec_index() is Some,
                0 <= max_dist,
                max_dist as int / (self.spec_index()->Some_0.params.m as int) <= t <= MAX_PROBE_RADIUS,
                count == record_count(queries@, self.spec_width() as int),
                0 <= q <= count,
                out@.len() == q,
                forall|j: int|
                    0 <= j < q ==> is_best_match(
                        self.spec_records(),
                        record(queries@, self.spec_width() as int, j),
                        max_dist,
                        0,
                        record_count(self.spec_records(), self.spec_width() as int),
                        #[trigger] out@[j],
                    ),
            decreases count - q,
        {
            let query = record_slice(queries, self.width, q);
            let found = self.indexed_best(query, max_dist, t);
            out.push(found);
            q = q + 1;
        }
        Ok(out)
    }

    /// `all_within` for every `width`-byte query of `queries`, in order.
    pub fn all_many_within(&self, queries: &[u8], max_dist: i64) -> (r: Result<
        Vec<Vec<(u64, usize)>>,
        &'static str,
    >)
        ensures
            queries@.len() % (self.spec_width() as nat) != 0 ==> r is Err && r->Err_0
                == ERR_QUERIES_NOT_MULTIPLE,
            queries@.len() % (self.spec_width() as nat) == 0 ==> r is Ok && r->Ok_0@.len()
                == record_count(queries@, self.spec_width() as int) && forall|q: int|
                0 <= q < r->Ok_0@.len() ==> (#[trigger] r->Ok_0@[q])@ == all_matches(
                    self.spec_records(),
                    record(queries@, self.spec_width() as int, q),
                    max_dist,
                    0,
                    record_count(self.spec_records(), self.spec_width() as int),
                ),
    {
        proof {
            use_type_invariant(self);
        }
        if queries.len() % self.width != 0 {
            return Err(ERR_QUERIES_NOT_MULTIPLE);
        }
        let t = match self.index_for_radius(max_dist) {
            Some(t) => t,
            None => {
                return bytes_array_all_many_within_dist(
                    self.records.as_slice(),
                    queries,
                    self.width,
                    max_dist,
                );
            },
        };
        let count = queries.len() / self.width;
        let mut out: Vec<Vec<(u64, usize)>> = Vec::new();
        let mut q: usize = 0;
        while q < count
            invariant
                self.inv(),
                self.spec_index() is Some,
                0 <= max_dist,
                max_dist as int / (self.spec_index()->Some_0.params.m as int) <= t <= MAX_PROBE_RADIUS,
                count == record_count(queries@, self.spec_width() as int),
                0 <= q <= count,
                out@.len() == q,
                forall|j: int|
                    0 <= j < q ==> (#[trigger] out@[j])@ == all_matches(
                        self.spec_records(),
                        record(queries@, self.spec_width() as int, j),
                        max_dist,
                        0,
                        record_count(self.spec_records(), self.spec_width() as int),
                    ),
            decreases count - q,
        {
            let query = record_slice(queries, self.width, q);
            let found = self.indexed_all(query, max_dist, t);
            out.push(found);
            q = q + 1;
        }
        Ok(out)
    }
}

} // verus!
