//! The public distance and scan API.

use vstd::prelude::*;
use vstd::string::StringSliceAdditionalSpecFns;
use crate::algo::{Algorithm, Arch, CpuFeatures};
use crate::distance::{bounded_result, distance_fits, hamming, within};
use crate::hex::{
    all_hex_upto, hex_distance, hamming_distance_string_with_max,
    hex_exceeds, hex_fails_before_cutoff, ERR_INVALID_HEX,
};
use crate::par::{Plan, plan, split, spec_split, lemma_plan_ranges, CHUNKS_PER_THREAD};
use crate::records::{
    all_matches, is_best_match, is_first_match, record_count, spec_merge_best, shift_indices,
    lemma_all_concat, lemma_all_matches_indices, lemma_best_concat, lemma_best_exact_extends,
    lemma_first_concat, lemma_records_fit, lemma_window_records, lemma_window_all, lemma_window_best, lemma_window_first,
};
use crate::block::{block_all, block_best, block_first};
use crate::packed::hamming_distance_string_packed;
use crate::scan::{
    Kernel, lemma_bounded_result, serial_all_within_dist, serial_best_within_dist,
    serial_first_within_dist,
};

verus! {

/// Scans of at least this many bytes are split into chunks when each record
/// costs a kernel call (widths without a block scanner).
pub const PAR_THRESHOLD_BYTES: usize = 65536;
/// Block scanners are cheaper per byte, so they need a larger scan before
/// splitting pays off.
pub const FIXED_WIDTH_PAR_THRESHOLD_BYTES: usize = 524288;
/// Split scans of `first` and `best` serve a serial prefix first, so early
/// matches never pay for the split: 1/64 of the scan, clamped to 16-256 KiB.
pub const SERIAL_PREFIX_MIN_BYTES: usize = 16384;
pub const SERIAL_PREFIX_MAX_BYTES: usize = 262144;
pub const SERIAL_PREFIX_SHARE: usize = 64;

/// Scan size, in bytes, from which splitting pays off.
pub fn parallel_threshold(has_block_scanner: bool) -> (r: usize)
    ensures
        r == if has_block_scanner {
            FIXED_WIDTH_PAR_THRESHOLD_BYTES
        } else {
            PAR_THRESHOLD_BYTES
        },
{
    if has_block_scanner {
        FIXED_WIDTH_PAR_THRESHOLD_BYTES
    } else {
        PAR_THRESHOLD_BYTES
    }
}

/// The closer of two best matches, the lower index on a tie.
pub fn merge_best(a: Option<(u64, usize)>, b: Option<(u64, usize)>) -> (r: Option<(u64, usize)>)
    ensures
        r == spec_merge_best(a, b),
{
    match (a, b) {
        (None, x) => x,
        (x, None) => x,
        (Some(x), Some(y)) => {
            if x.0 < y.0 || (x.0 == y.0 && x.1 <= y.1) {
                Some(x)
            } else {
                Some(y)
            }
        },
    }
}

pub const ERR_STRING_LENGTHS: &'static str = "strings are NOT the same length";
pub const ERR_BYTES_LENGTHS: &'static str = "bytes are NOT the same length";
pub const ERR_EMPTY_ARRAY: &'static str = "array size must be >0";
pub const ERR_ARRAY_SIZES: &'static str = "array sizes need to be the same";
pub const ERR_EMPTY_ELEM: &'static str = "elem_to_compare size must be >0";
pub const ERR_NOT_MULTIPLE: &'static str =
    "array_of_elems size must be multiplier of elem_to_compare";

/// Kernel for the byte distance of `algo`. The vector backends count bits
/// with the processor's popcount, as the native one does.
pub fn select_bytes_kernel(algo: Algorithm) -> (k: Kernel)
    ensures
        k == (if algo == Algorithm::Classic {
            Kernel::Classic
        } else {
            Kernel::Native
        }),
{
    match algo {
        Algorithm::Classic => Kernel::Classic,
        _ => Kernel::Native,
    }
}

/// Record widths served by the block scanners.
pub open spec fn is_block_width(width: usize) -> bool {
    width == 8 || width == 16 || width == 32 || width == 64
}

/// Whether a fixed-width block scanner serves records of `width` bytes
/// under `algo` on the processor `cpu`: on AArch64 under the native and NEON
/// backends; on x86-64 under the native and AVX-512 backends when the
/// processor has AVX-512F, VPOPCNTDQ and POPCNT, and under the native and
/// AVX2 backends when it has AVX2 and POPCNT. Other backends and processors
/// scan record by record.
pub open spec fn spec_block_scanner(algo: Algorithm, cpu: CpuFeatures, width: usize) -> bool {
    &&& is_block_width(width)
    &&& match cpu.arch {
        Arch::Aarch64 => algo == Algorithm::Native || algo == Algorithm::Neon,
        Arch::X86_64 => {
            ||| (algo == Algorithm::Native || algo == Algorithm::Avx512) && cpu.avx512f
                && cpu.avx512vpopcntdq && cpu.popcnt
            ||| (algo == Algorithm::Native || algo == Algorithm::Avx2) && cpu.avx2 && cpu.popcnt
        },
        Arch::Other => false,
    }
}

/// [`spec_block_scanner`].
pub fn select_array_scanner_for_width(algo: Algorithm, cpu: &CpuFeatures, width: usize) -> (r: bool)
    ensures
        r == spec_block_scanner(algo, *cpu, width),
{
    if !has_block_scanner(width) {
        return false;
    }
    match cpu.arch {
        Arch::Aarch64 => match algo {
            Algorithm::Native | Algorithm::Neon => true,
            _ => false,
        },
        Arch::X86_64 => {
            let avx512 = match algo {
                Algorithm::Native | Algorithm::Avx512 => cpu.avx512f && cpu.avx512vpopcntdq && cpu.popcnt,
                _ => false,
            };
            let avx2 = match algo {
                Algorithm::Native | Algorithm::Avx2 => cpu.avx2 && cpu.popcnt,
                _ => false,
            };
            avx512 || avx2
        },
        Arch::Other => false,
    }
}

/// Whether the library's block scanner serves records of `width` bytes.
/// The library's scans use it for every such width; the processor plays no
/// part in it.
pub fn has_block_scanner(width: usize) -> (r: bool)
    ensures
        r == is_block_width(width),
{
    width == 8 || width == 16 || width == 32 || width == 64
}

/// Bytes the serial prefix of a split scan of `len` bytes covers: 1/64 of
/// the scan, clamped to 16-256 KiB.
pub open spec fn prefix_bytes(len: int) -> int {
    let share = len / SERIAL_PREFIX_SHARE as int;
    if share < SERIAL_PREFIX_MIN_BYTES {
        SERIAL_PREFIX_MIN_BYTES as int
    } else if share > SERIAL_PREFIX_MAX_BYTES {
        SERIAL_PREFIX_MAX_BYTES as int
    } else {
        share
    }
}

/// Records of the serial prefix: the prefix bytes in whole records, rounded
/// up to a multiple of 16 records, and at most the whole scan.
pub open spec fn prefix_records(len: int, width: int) -> int {
    let per = prefix_bytes(len) / width;
    let rounded = if per % 16 == 0 {
        per
    } else {
        per + (16 - per % 16)
    };
    if rounded < len / width {
        rounded
    } else {
        len / width
    }
}

/// The serial prefix and the plan for the rest of a split scan of `len`
/// bytes of `width`-byte records: `None` under `min_bytes` bytes, or when
/// the rest is not worth splitting.
pub open spec fn spec_prefix_plan(len: int, width: int, min_bytes: int, threads: int) -> Option<
    (usize, Plan),
> {
    if len < min_bytes {
        None
    } else {
        let prefix = prefix_records(len, width);
        match spec_split(len / width - prefix, width, min_bytes, threads) {
            Some(p) => Some((prefix as usize, p)),
            None => None,
        }
    }
}

/// One fixed-width scan: the query, the threshold and the kernels for its
/// width.
#[derive(Clone, Copy)]
pub struct Scan<'a> {
    pub query: &'a [u8],
    pub max_dist: i64,
    pub kernel: Kernel,
    /// Whether the block scanner serves this width.
    pub block: bool,
}

impl<'a> Scan<'a> {
    /// The query is non-empty and its distances fit the counters.
    pub open spec fn wf(&self) -> bool {
        self.query.len() > 0 && distance_fits(self.query.len() as nat)
    }

    /// A scan for `query` with the library's own kernels: the native popcount,
    /// and the block scanner for the widths it serves.
    pub fn new(query: &'a [u8], max_dist: i64) -> (s: Self)
        ensures
            s.query == query,
            s.max_dist == max_dist,
            s.kernel == Kernel::Native,
            s.block == is_block_width(query.len()),
    {
        Self::with_kernels(
            query,
            max_dist,
            select_bytes_kernel(Algorithm::Native),
            has_block_scanner(query.len()),
        )
    }

    /// Like `new`, with kernels already selected for `query.len()`.
    pub fn with_kernels(query: &'a [u8], max_dist: i64, kernel: Kernel, block: bool) -> (s: Self)
        ensures
            s.query == query,
            s.max_dist == max_dist,
            s.kernel == kernel,
            s.block == block,
    {
        Scan { query, max_dist, kernel, block }
    }

    pub fn width(&self) -> (w: usize)
        ensures
            w == self.query.len(),
    {
        self.query.len()
    }

    /// First record of `records` within the threshold.
    pub fn first(&self, records: &[u8]) -> (r: Option<usize>)
        requires
            self.wf(),
        ensures
            is_first_match(
                records@,
                self.query@,
                self.max_dist,
                0,
                record_count(records@, self.query.len() as int),
                r,
            ),
    {
        if self.block {
            block_first(records, self.query, self.max_dist)
        } else {
            serial_first_within_dist(records, self.query, self.max_dist, self.kernel)
        }
    }

    /// Scan size, in bytes, from which splitting this scan pays off.
    pub fn parallel_threshold(&self) -> (r: usize)
        ensures
            r == if self.block {
                FIXED_WIDTH_PAR_THRESHOLD_BYTES
            } else {
                PAR_THRESHOLD_BYTES
            },
    {
        parallel_threshold(self.block)
    }

    /// Records served by the serial prefix of a split scan, and the plan for
    /// the rest; `None` when the scan should stay serial.
    fn prefix_plan(&self, records: &[u8], min_bytes: usize, threads: usize) -> (r: Option<
        (usize, Plan),
    >)
        requires
            self.wf(),
            threads <= usize::MAX / CHUNKS_PER_THREAD,
        ensures
            r == spec_prefix_plan(records@.len() as int, self.query.len() as int, min_bytes as int, threads as int),
            r matches Some((prefix, p)) ==> prefix <= record_count(
                records@,
                self.query.len() as int,
            ) && p.covers(record_count(records@, self.query.len() as int) - prefix),
    {
        let width = self.width();
        let count = records.len() / width;
        if records.len() < min_bytes {
            return None;
        }
        let share = records.len() / SERIAL_PREFIX_SHARE;
        let prefix_bytes = if share < SERIAL_PREFIX_MIN_BYTES {
            SERIAL_PREFIX_MIN_BYTES
        } else if share > SERIAL_PREFIX_MAX_BYTES {
            SERIAL_PREFIX_MAX_BYTES
        } else {
            share
        };
        let per = prefix_bytes / width;
        let rounded = if per % 16 == 0 {
            per
        } else {
            per + (16 - per % 16)
        };
        let prefix = if rounded < count {
            rounded
        } else {
            count
        };
        match split(count - prefix, width, min_bytes, threads) {
            Some(p) => Some((prefix, p)),
            None => None,
        }
    }

    /// `first`, served by a serial prefix and then chunk by chunk; the
    /// lowest matching chunk wins and later chunks are skipped.
    pub fn first_split(&self, records: &[u8], min_bytes: usize, threads: usize) -> (r: Option<usize>)
        requires
            self.wf(),
            threads <= usize::MAX / CHUNKS_PER_THREAD,
        ensures
            is_first_match(
                records@,
                self.query@,
                self.max_dist,
                0,
                record_count(records@, self.query.len() as int),
                r,
            ),
    {
        let width = self.width();
        let count = records.len() / width;
        let (prefix, p) = match self.prefix_plan(records, min_bytes, threads) {
            Some(pp) => pp,
            None => {
                return self.first(records);
            },
        };
        proof {
            lemma_records_fit(records@, width as int, count as int);
            lemma_records_fit(records@, width as int, prefix as int);
            lemma_plan_ranges(p, count - prefix);
        }
        let head = vstd::slice::slice_subrange(records, 0, prefix * width);
        proof {
            lemma_window_records(records@, self.query@, 0, prefix as int);
            assert(records@.subrange(0 * width, prefix * width) == head@);
        }
        let found = self.first(head);
        proof {
            lemma_window_first(records@, self.query@, self.max_dist, 0, prefix as int, found);
            assert(records@.subrange(0 * width, prefix * width) == head@);
        }
        if let Some(index) = found {
            return Some(index);
        }
        let rest = count - prefix;
        let mut chunk: usize = 0;
        while chunk < p.chunks
            invariant
                width == self.query.len(),
                self.wf(),
                count == record_count(records@, width as int),
                prefix <= count,
                rest == count - prefix,
                p.covers(rest as int),
                chunk <= p.chunks,
                count * width <= records.len(),
                p.spec_start(0) == 0,
                forall|c: int|
                    0 <= c < p.chunks ==> p.spec_start(c) < #[trigger] p.spec_end(c, rest as int)
                        <= rest,
                forall|c: int|
                    0 <= c < p.chunks - 1 ==> #[trigger] p.spec_end(c, rest as int) == p.spec_start(
                        c + 1,
                    ),
                p.spec_end(p.chunks - 1, rest as int) == rest,
                is_first_match(
                    records@,
                    self.query@,
                    self.max_dist,
                    0,
                    prefix + if chunk < p.chunks {
                        p.spec_start(chunk as int)
                    } else {
                        rest as int
                    },
                    None,
                ),
            decreases p.chunks - chunk,
        {
            let (start, end) = p.range(chunk, rest);
            proof {
                lemma_records_fit(records@, width as int, (prefix + end) as int);
                assert((prefix + start) * width <= (prefix + end) * width) by (nonlinear_arith)
                    requires
                        start < end,
                        width > 0,
                ;
            }
            let sub = vstd::slice::slice_subrange(records, (prefix + start) * width, (prefix + end) * width);
            proof {
                lemma_window_records(records@, self.query@, prefix + start, prefix + end);
            }
            let hit = self.first(sub);
            proof {
                lemma_window_first(
                    records@,
                    self.query@,
                    self.max_dist,
                    prefix + start,
                    prefix + end,
                    hit,
                );
                lemma_first_concat(
                    records@,
                    self.query@,
                    self.max_dist,
                    0,
                    prefix + start,
                    prefix + end,
                    None,
                    match hit {
                        Some(i) => Some((prefix + start + i) as usize),
                        None => None,
                    },
                );
            }
            if let Some(index) = hit {
                proof {
                    lemma_first_concat(
                        records@,
                        self.query@,
                        self.max_dist,
                        0,
                        prefix + end,
                        count as int,
                        Some((prefix + start + index) as usize),
                        None,
                    );
                }
                return Some(prefix + start + index);
            }
            chunk = chunk + 1;
        }
        None
    }

    /// `first_split` with the threshold from which splitting pays off.
    pub fn first_parallel(&self, records: &[u8], threads: usize) -> (r: Option<usize>)
        requires
            self.wf(),
            threads <= usize::MAX / CHUNKS_PER_THREAD,
        ensures
            is_first_match(
                records@,
                self.query@,
                self.max_dist,
                0,
                record_count(records@, self.query.len() as int),
                r,
            ),
    {
        self.first_split(records, self.parallel_threshold(), threads)
    }

    /// `best`, served by a serial prefix and then chunk by chunk. The prefix
    /// settles an early exact match; otherwise the rest only accepts records
    /// strictly closer than the prefix's best, and an exact match in a chunk
    /// ends the search for every later chunk.
    pub fn best_split(&self, records: &[u8], min_bytes: usize, threads: usize) -> (r: Option<
        (u64, usize),
    >)
        requires
            self.wf(),
            threads <= usize::MAX / CHUNKS_PER_THREAD,
        ensures
            is_best_match(
                records@,
                self.query@,
                self.max_dist,
                0,
                record_count(records@, self.query.len() as int),
                r,
            ),
    {
        let width = self.width();
        let count = records.len() / width;
        let (prefix, p) = match self.prefix_plan(records, min_bytes, threads) {
            Some(pp) => pp,
            None => {
                return self.best(records);
            },
        };
        proof {
            lemma_records_fit(records@, width as int, count as int);
            lemma_records_fit(records@, width as int, prefix as int);
            lemma_plan_ranges(p, count - prefix);
        }
        let head_records = vstd::slice::slice_subrange(records, 0, prefix * width);
        proof {
            lemma_window_records(records@, self.query@, 0, prefix as int);
            assert(records@.subrange(0 * width, prefix * width) == head_records@);
        }
        let head = self.best(head_records);
        proof {
            lemma_window_best(records@, self.query@, self.max_dist, 0, prefix as int, head);
        }
        let rest_scan = match head {
            Some((0, idx)) => {
                proof {
                    lemma_best_exact_extends(
                        records@,
                        self.query@,
                        self.max_dist,
                        0,
                        prefix as int,
                        count as int,
                        idx,
                    );
                }
                return head;
            },
            Some((distance, idx)) => {
                proof {
                    crate::records::lemma_record_bounds(records@.len() as int, width as int, idx as int);
                    crate::scan::lemma_bounded_result(
                        crate::records::record(records@, width as int, idx as int),
                        self.query@,
                        self.max_dist,
                    );
                }
                Scan { max_dist: distance as i64 - 1, ..*self }
            },
            None => *self,
        };
        let rest = count - prefix;
        let mut acc = head;
        let mut exact_found = false;
        let mut chunk: usize = 0;
        while chunk < p.chunks
            invariant
                width == self.query.len(),
                self.wf(),
                rest_scan.wf(),
                rest_scan.query == self.query,
                count == record_count(records@, width as int),
                prefix <= count,
                rest == count - prefix,
                p.covers(rest as int),
                chunk <= p.chunks,
                count * width <= records.len(),
                forall|c: int|
                    0 <= c < p.chunks ==> p.spec_start(c) < #[trigger] p.spec_end(c, rest as int)
                        <= rest,
                forall|c: int|
                    0 <= c < p.chunks - 1 ==> #[trigger] p.spec_end(c, rest as int) == p.spec_start(
                        c + 1,
                    ),
                p.spec_start(0) == 0,
                p.spec_end(p.chunks - 1, rest as int) == rest,
                forall|x: nat| #[trigger] within(x, rest_scan.max_dist) ==> within(x, self.max_dist),
                head is None ==> rest_scan.max_dist == self.max_dist,
                head matches Some((dh, _)) ==> dh > 0 && rest_scan.max_dist == dh - 1,
                head matches Some((dh, _)) ==> (acc matches Some((da, _)) && da <= dh),
                exact_found ==> acc matches Some((0, _)),
                is_best_match(
                    records@,
                    self.query@,
                    self.max_dist,
                    0,
                    prefix + if chunk < p.chunks {
                        p.spec_start(chunk as int)
                    } else {
                        rest as int
                    },
                    acc,
                ),
            decreases p.chunks - chunk,
        {
            let (start, end) = p.range(chunk, rest);
            if exact_found {
                proof {
                    let ghost found_index = match acc {
                        Some(x) => x.1,
                        None => 0,
                    };
                    lemma_best_exact_extends(
                        records@,
                        self.query@,
                        self.max_dist,
                        0,
                        prefix + start,
                        prefix + end,
                        found_index,
                    );
                }
            } else {
                proof {
                    lemma_records_fit(records@, width as int, (prefix + end) as int);
                    assert((prefix + start) * width <= (prefix + end) * width) by (nonlinear_arith)
                        requires
                            start < end,
                            width > 0,
                    ;
                    lemma_window_records(records@, self.query@, prefix + start, prefix + end);
                }
                let sub = vstd::slice::slice_subrange(
                    records,
                    (prefix + start) * width,
                    (prefix + end) * width,
                );
                let found = rest_scan.best(sub);
                proof {
                    lemma_window_best(
                        records@,
                        self.query@,
                        rest_scan.max_dist,
                        prefix + start,
                        prefix + end,
                        found,
                    );
                }
                let shifted = match found {
                    Some((d, i)) => Some((d, prefix + start + i)),
                    None => None,
                };
                proof {
                    lemma_best_concat(
                        records@,
                        self.query@,
                        self.max_dist,
                        rest_scan.max_dist,
                        0,
                        prefix + start,
                        prefix + end,
                        acc,
                        shifted,
                    );
                }
                if let Some((0, _)) = shifted {
                    exact_found = true;
                }
                acc = merge_best(acc, shifted);
            }
            chunk = chunk + 1;
        }
        acc
    }

    /// `best_split` with the threshold from which splitting pays off.
    pub fn best_parallel(&self, records: &[u8], threads: usize) -> (r: Option<(u64, usize)>)
        requires
            self.wf(),
            threads <= usize::MAX / CHUNKS_PER_THREAD,
        ensures
            is_best_match(
                records@,
                self.query@,
                self.max_dist,
                0,
                record_count(records@, self.query.len() as int),
                r,
            ),
    {
        self.best_split(records, self.parallel_threshold(), threads)
    }

    /// `all`, chunk by chunk; chunk results are concatenated in chunk order,
    /// so indices stay ascending.
    pub fn all_split(&self, records: &[u8], min_bytes: usize, threads: usize) -> (r: Vec<
        (u64, usize),
    >)
        requires
            self.wf(),
            threads <= usize::MAX / CHUNKS_PER_THREAD,
        ensures
            r@ == all_matches(
                records@,
                self.query@,
                self.max_dist,
                0,
                record_count(records@, self.query.len() as int),
            ),
    {
        let width = self.width();
        let count = records.len() / width;
        let p = match plan(count, width, min_bytes, threads) {
            Some(p) => p,
            None => {
                return self.all(records);
            },
        };
        proof {
            lemma_records_fit(records@, width as int, count as int);
            lemma_plan_ranges(p, count as int);
            assert(all_matches(records@, self.query@, self.max_dist, 0, 0) =~= Seq::<
                (u64, usize),
            >::empty());
        }
        let mut results: Vec<(u64, usize)> = Vec::new();
        let mut chunk: usize = 0;
        while chunk < p.chunks
            invariant
                width == self.query.len(),
                self.wf(),
                count == record_count(records@, width as int),
                p.covers(count as int),
                chunk <= p.chunks,
                count * width <= records.len(),
                forall|c: int|
                    0 <= c < p.chunks ==> p.spec_start(c) < #[trigger] p.spec_end(c, count as int)
                        <= count,
                forall|c: int|
                    0 <= c < p.chunks - 1 ==> #[trigger] p.spec_end(c, count as int) == p.spec_start(
                        c + 1,
                    ),
                p.spec_start(0) == 0,
                p.spec_end(p.chunks - 1, count as int) == count,
                results@ == all_matches(
                    records@,
                    self.query@,
                    self.max_dist,
                    0,
                    if chunk < p.chunks {
                        p.spec_start(chunk as int)
                    } else {
                        count as int
                    },
                ),
            decreases p.chunks - chunk,
        {
            let (start, end) = p.range(chunk, count);
            proof {
                lemma_records_fit(records@, width as int, end as int);
                assert(start * width <= end * width) by (nonlinear_arith)
                    requires
                        start < end,
                        width > 0,
                ;
                lemma_window_records(records@, self.query@, start as int, end as int);
            }
            let sub = vstd::slice::slice_subrange(records, start * width, end * width);
            let matches = self.all(sub);
            proof {
                lemma_window_all(records@, self.query@, self.max_dist, start as int, end as int);
                lemma_all_matches_indices(sub@, self.query@, self.max_dist, 0, (end - start) as int);
                lemma_all_concat(records@, self.query@, self.max_dist, 0, start as int, end as int);
            }
            let ghost before = results@;
            let mut k: usize = 0;
            while k < matches.len()
                invariant
                    k <= matches.len(),
                    start < end <= count,
                    matches@ == all_matches(sub@, self.query@, self.max_dist, 0, (end - start) as int),
                    forall|j: int|
                        0 <= j < matches@.len() ==> 0 <= (#[trigger] matches@[j]).1 < end - start,
                    results@ == before + shift_indices(matches@.take(k as int), start as int),
                decreases matches.len() - k,
            {
                let (d, i) = matches[k];
                results.push((d, i + start));
                proof {
                    assert(matches@.take(k + 1) =~= matches@.take(k as int).push(matches@[k as int]));
                    assert(shift_indices(matches@.take(k + 1), start as int) =~= shift_indices(
                        matches@.take(k as int),
                        start as int,
                    ).push((d, (i + start) as usize)));
                }
                k = k + 1;
            }
            proof {
                assert(matches@.take(matches@.len() as int) =~= matches@);
            }
            chunk = chunk + 1;
        }
        results
    }

    /// `all_split` with the threshold from which splitting pays off.
    pub fn all_parallel(&self, records: &[u8], threads: usize) -> (r: Vec<(u64, usize)>)
        requires
            self.wf(),
            threads <= usize::MAX / CHUNKS_PER_THREAD,
        ensures
            r@ == all_matches(
                records@,
                self.query@,
                self.max_dist,
                0,
                record_count(records@, self.query.len() as int),
            ),
    {
        self.all_split(records, self.parallel_threshold(), threads)
    }

    /// Closest record of `records` within the threshold.
    pub fn best(&self, records: &[u8]) -> (r: Option<(u64, usize)>)
        requires
            self.wf(),
        ensures
            is_best_match(
                records@,
                self.query@,
                self.max_dist,
                0,
                record_count(records@, self.query.len() as int),
                r,
            ),
    {
        if self.block {
            block_best(records, self.query, self.max_dist)
        } else {
            serial_best_within_dist(records, self.query, self.max_dist, self.kernel)
        }
    }

    /// Every record of `records` within the threshold, in index order.
    pub fn all(&self, records: &[u8]) -> (r: Vec<(u64, usize)>)
        requires
            self.wf(),
        ensures
            r@ == all_matches(
                records@,
                self.query@,
                self.max_dist,
                0,
                record_count(records@, self.query.len() as int),
            ),
    {
        if self.block {
            block_all(records, self.query, self.max_dist)
        } else {
            serial_all_within_dist(records, self.query, self.max_dist, self.kernel)
        }
    }

    /// Records of `records` this scan reads.
    pub open spec fn spec_count(&self, records: Seq<u8>) -> int {
        record_count(records, self.query.len() as int)
    }

    /// `hits` holds, chunk by chunk, the first match in each chunk of `p`.
    pub open spec fn chunk_firsts(&self, records: Seq<u8>, p: Plan, hits: Seq<Option<usize>>) -> bool {
        let count = self.spec_count(records);
        &&& p.covers(count)
        &&& hits.len() == p.chunks
        &&& forall|c: int|
            0 <= c < p.chunks ==> is_first_match(
                records,
                self.query@,
                self.max_dist,
                p.spec_start(c),
                p.spec_end(c, count),
                #[trigger] hits[c],
            )
    }

    /// `hits` holds, chunk by chunk, the closest match in each chunk of `p`.
    pub open spec fn chunk_bests(&self, records: Seq<u8>, p: Plan, hits: Seq<Option<(u64, usize)>>) -> bool {
        let count = self.spec_count(records);
        &&& p.covers(count)
        &&& hits.len() == p.chunks
        &&& forall|c: int|
            0 <= c < p.chunks ==> is_best_match(
                records,
                self.query@,
                self.max_dist,
                p.spec_start(c),
                p.spec_end(c, count),
                #[trigger] hits[c],
            )
    }

    /// `hits` holds, chunk by chunk, all matches in each chunk of `p`.
    pub open spec fn chunk_alls(&self, records: Seq<u8>, p: Plan, hits: Seq<Vec<(u64, usize)>>) -> bool {
        let count = self.spec_count(records);
        &&& p.covers(count)
        &&& hits.len() == p.chunks
        &&& forall|c: int|
            0 <= c < p.chunks ==> (#[trigger] hits[c])@ == all_matches(
                records,
                self.query@,
                self.max_dist,
                p.spec_start(c),
                p.spec_end(c, count),
            )
    }

    /// The records of `chunk` of `p` as a window of `records`, with its
    /// first record.
    fn chunk_window<'b>(&self, records: &'b [u8], p: Plan, chunk: usize) -> (r: (&'b [u8], usize))
        requires
            self.wf(),
            p.covers(self.spec_count(records@)),
            chunk < p.chunks,
        ensures
            r.1 == p.spec_start(chunk as int),
            r.1 < p.spec_end(chunk as int, self.spec_count(records@)) <= usize::MAX,
            p.spec_end(chunk as int, self.spec_count(records@)) * self.query.len() <= records@.len(),
            r.0@ == records@.subrange(
                r.1 * self.query.len(),
                p.spec_end(chunk as int, self.spec_count(records@)) * self.query.len(),
            ),
    {
        let width = self.width();
        let count = records.len() / width;
        let (start, end) = p.range(chunk, count);
        proof {
            lemma_records_fit(records@, width as int, end as int);
            assert(start * width <= end * width) by (nonlinear_arith)
                requires
                    start < end,
                    width > 0,
            ;
        }
        (vstd::slice::slice_subrange(records, start * width, end * width), start)
    }

    /// The first match in `chunk` of `p`, as an index into `records`.
    pub fn first_in_chunk(&self, records: &[u8], p: Plan, chunk: usize) -> (r: Option<usize>)
        requires
            self.wf(),
            p.covers(self.spec_count(records@)),
            chunk < p.chunks,
        ensures
            is_first_match(
                records@,
                self.query@,
                self.max_dist,
                p.spec_start(chunk as int),
                p.spec_end(chunk as int, self.spec_count(records@)),
                r,
            ),
    {
        let (sub, start) = self.chunk_window(records, p, chunk);
        let ghost end = p.spec_end(chunk as int, self.spec_count(records@));
        let hit = self.first(sub);
        proof {
            lemma_window_records(records@, self.query@, start as int, end);
            lemma_window_first(records@, self.query@, self.max_dist, start as int, end, hit);
        }
        match hit {
            Some(i) => Some(start + i),
            None => None,
        }
    }

    /// The closest match in `chunk` of `p`, as an index into `records`.
    pub fn best_in_chunk(&self, records: &[u8], p: Plan, chunk: usize) -> (r: Option<(u64, usize)>)
        requires
            self.wf(),
            p.covers(self.spec_count(records@)),
            chunk < p.chunks,
        ensures
            is_best_match(
                records@,
                self.query@,
                self.max_dist,
                p.spec_start(chunk as int),
                p.spec_end(chunk as int, self.spec_count(records@)),
                r,
            ),
    {
        let (sub, start) = self.chunk_window(records, p, chunk);
        let ghost end = p.spec_end(chunk as int, self.spec_count(records@));
        let hit = self.best(sub);
        proof {
            lemma_window_records(records@, self.query@, start as int, end);
            lemma_window_best(records@, self.query@, self.max_dist, start as int, end, hit);
        }
        match hit {
            Some((d, i)) => Some((d, start + i)),
            None => None,
        }
    }

    /// All matches in `chunk` of `p`, with indices into `records`.
    pub fn all_in_chunk(&self, records: &[u8], p: Plan, chunk: usize) -> (r: Vec<(u64, usize)>)
        requires
            self.wf(),
            p.covers(self.spec_count(records@)),
            chunk < p.chunks,
        ensures
            r@ == all_matches(
                records@,
                self.query@,
                self.max_dist,
                p.spec_start(chunk as int),
                p.spec_end(chunk as int, self.spec_count(records@)),
            ),
    {
        let (sub, start) = self.chunk_window(records, p, chunk);
        let ghost end = p.spec_end(chunk as int, self.spec_count(records@));
        let matches = self.all(sub);
        proof {
            lemma_window_records(records@, self.query@, start as int, end);
            lemma_window_all(records@, self.query@, self.max_dist, start as int, end);
            lemma_all_matches_indices(sub@, self.query@, self.max_dist, 0, end - start);
        }
        let mut out: Vec<(u64, usize)> = Vec::new();
        let mut k: usize = 0;
        while k < matches.len()
            invariant
                k <= matches.len(),
                start < end <= usize::MAX,
                matches@ == all_matches(sub@, self.query@, self.max_dist, 0, end - start),
                forall|j: int| 0 <= j < matches@.len() ==> 0 <= (#[trigger] matches@[j]).1 < end - start,
                out@ == shift_indices(matches@.take(k as int), start as int),
            decreases matches.len() - k,
        {
            let (d, i) = matches[k];
            out.push((d, i + start));
            proof {
                assert(matches@.take(k + 1) =~= matches@.take(k as int).push(matches@[k as int]));
                assert(shift_indices(matches@.take(k + 1), start as int) =~= shift_indices(
                    matches@.take(k as int),
                    start as int,
                ).push((d, (i + start) as usize)));
            }
            k = k + 1;
        }
        proof {
            assert(matches@.take(matches@.len() as int) =~= matches@);
        }
        out
    }

    /// The first match of the whole scan from the first matches of the chunks
    /// of `p`: the one of the lowest chunk that has one.
    pub fn first_of_chunks(&self, records: &[u8], p: Plan, hits: &[Option<usize>]) -> (r: Option<usize>)
        ensures
            self.chunk_firsts(records@, p, hits@) ==> is_first_match(
                records@,
                self.query@,
                self.max_dist,
                0,
                self.spec_count(records@),
                r,
            ),
    {
        let ghost count = self.spec_count(records@);
        proof {
            if self.chunk_firsts(records@, p, hits@) {
                lemma_plan_ranges(p, count);
            }
        }
        let mut c: usize = 0;
        while c < hits.len()
            invariant
                c <= hits@.len(),
                count == self.spec_count(records@),
                self.chunk_firsts(records@, p, hits@) ==> {
                    &&& p.spec_start(0) == 0
                    &&& p.spec_end(p.chunks - 1, count) == count
                    &&& forall|k: int| 0 <= k < p.chunks - 1 ==> #[trigger] p.spec_end(k, count) == p.spec_start(k + 1)
                    &&& forall|k: int| 0 <= k < p.chunks ==> p.spec_start(k) < #[trigger] p.spec_end(k, count) <= count
                    &&& is_first_match(
                        records@,
                        self.query@,
                        self.max_dist,
                        0,
                        if c < p.chunks { p.spec_start(c as int) } else { count },
                        None,
                    )
                },
            decreases hits@.len() - c,
        {
            let hit = hits[c];
            proof {
                if self.chunk_firsts(records@, p, hits@) {
                    let lo = p.spec_start(c as int);
                    let hi = p.spec_end(c as int, count);
                    assert(is_first_match(records@, self.query@, self.max_dist, lo, hi, hits@[c as int]));
                    lemma_first_concat(records@, self.query@, self.max_dist, 0, lo, hi, None, hit);
                    if hit is Some {
                        lemma_first_concat(records@, self.query@, self.max_dist, 0, hi, count, hit, None);
                    }
                }
            }
            if hit.is_some() {
                return hit;
            }
            c = c + 1;
        }
        None
    }

    /// The closest match of the whole scan from the closest matches of the
    /// chunks of `p`: the closest of them, the lowest index on a tie.
    pub fn best_of_chunks(&self, records: &[u8], p: Plan, hits: &[Option<(u64, usize)>]) -> (r: Option<
        (u64, usize),
    >)
        ensures
            self.chunk_bests(records@, p, hits@) ==> is_best_match(
                records@,
                self.query@,
                self.max_dist,
                0,
                self.spec_count(records@),
                r,
            ),
    {
        let ghost count = self.spec_count(records@);
        proof {
            if self.chunk_bests(records@, p, hits@) {
                lemma_plan_ranges(p, count);
            }
        }
        let mut acc: Option<(u64, usize)> = None;
        let mut c: usize = 0;
        while c < hits.len()
            invariant
                c <= hits@.len(),
                count == self.spec_count(records@),
                self.chunk_bests(records@, p, hits@) ==> {
                    &&& p.spec_start(0) == 0
                    &&& p.spec_end(p.chunks - 1, count) == count
                    &&& forall|k: int| 0 <= k < p.chunks - 1 ==> #[trigger] p.spec_end(k, count) == p.spec_start(k + 1)
                    &&& forall|k: int| 0 <= k < p.chunks ==> p.spec_start(k) < #[trigger] p.spec_end(k, count) <= count
                    &&& is_best_match(
                        records@,
                        self.query@,
                        self.max_dist,
                        0,
                        if c < p.chunks { p.spec_start(c as int) } else { count },
                        acc,
                    )
                },
            decreases hits@.len() - c,
        {
            let hit = hits[c];
            proof {
                if self.chunk_bests(records@, p, hits@) {
                    let lo = p.spec_start(c as int);
                    let hi = p.spec_end(c as int, count);
                    assert(is_best_match(records@, self.query@, self.max_dist, lo, hi, hits@[c as int]));
                    lemma_best_concat(records@, self.query@, self.max_dist, self.max_dist, 0, lo, hi, acc, hit);
                }
            }
            acc = merge_best(acc, hit);
            c = c + 1;
        }
        acc
    }

    /// All matches of the whole scan from the matches of the chunks of `p`,
    /// chunk after chunk.
    pub fn all_of_chunks(&self, records: &[u8], p: Plan, hits: &[Vec<(u64, usize)>]) -> (r: Vec<
        (u64, usize),
    >)
        ensures
            self.chunk_alls(records@, p, hits@) ==> r@ == all_matches(
                records@,
                self.query@,
                self.max_dist,
                0,
                self.spec_count(records@),
            ),
    {
        let ghost count = self.spec_count(records@);
        proof {
            if self.chunk_alls(records@, p, hits@) {
                lemma_plan_ranges(p, count);
                assert(all_matches(records@, self.query@, self.max_dist, 0, 0) =~= Seq::<
                    (u64, usize),
                >::empty());
            }
        }
        let mut out: Vec<(u64, usize)> = Vec::new();
        let mut c: usize = 0;
        while c < hits.len()
            invariant
                c <= hits@.len(),
                count == self.spec_count(records@),
                self.chunk_alls(records@, p, hits@) ==> {
                    &&& p.spec_start(0) == 0
                    &&& p.spec_end(p.chunks - 1, count) == count
                    &&& forall|k: int| 0 <= k < p.chunks - 1 ==> #[trigger] p.spec_end(k, count) == p.spec_start(k + 1)
                    &&& forall|k: int| 0 <= k < p.chunks ==> p.spec_start(k) < #[trigger] p.spec_end(k, count) <= count
                    &&& out@ == all_matches(
                        records@,
                        self.query@,
                        self.max_dist,
                        0,
                        if c < p.chunks { p.spec_start(c as int) } else { count },
                    )
                },
            decreases hits@.len() - c,
        {
            let part = &hits[c];
            let ghost before = out@;
            let mut k: usize = 0;
            while k < part.len()
                invariant
                    k <= part@.len(),
                    out@ == before + part@.take(k as int),
                decreases part@.len() - k,
            {
                out.push(part[k]);
                proof {
                    assert(part@.take(k + 1) =~= part@.take(k as int).push(part@[k as int]));
                    assert(before + part@.take(k + 1) =~= (before + part@.take(k as int)).push(part@[k as int]));
                }
                k = k + 1;
            }
            proof {
                assert(part@.take(part@.len() as int) =~= part@);
                if self.chunk_alls(records@, p, hits@) {
                    let lo = p.spec_start(c as int);
                    let hi = p.spec_end(c as int, count);
                    assert(hits@[c as int]@ == all_matches(records@, self.query@, self.max_dist, lo, hi));
                    lemma_all_concat(records@, self.query@, self.max_dist, 0, lo, hi);
                }
            }
            c = c + 1;
        }
        out
    }
}

/// Byte-distance dispatch: the distance of `a` and `b` (equal lengths), or
/// the `u64::MAX` sentinel once it exceeds a non-negative `max_dist`.
pub fn hamming_distance_bytes_dispatch(a: &[u8], b: &[u8], max_dist: i64) -> (r: u64)
    requires
        a.len() == b.len(),
        distance_fits(a.len() as nat),
    ensures
        r == bounded_result(hamming(a@, b@), max_dist),
{
    select_bytes_kernel(Algorithm::Native).distance(a, b, max_dist)
}

/// Hex-string dispatch: the distance of two equal-length hex strings, with
/// the packed kernel.
pub fn hamming_distance_string_dispatch(a: &[u8], b: &[u8]) -> (r: Result<u64, &'static str>)
    requires
        a.len() == b.len(),
        distance_fits(a.len() as nat),
    ensures
        r is Ok <==> all_hex_upto(a@, b@, a.len() as int),
        r matches Ok(v) ==> v == hex_distance(a@, b@),
        r matches Err(e) ==> e == ERR_INVALID_HEX,
{
    hamming_distance_string_packed(a, b)
}

/// Hex-string dispatch with early exit: `Ok(u64::MAX)` once the distance
/// exceeds `max_dist`, `Err` for a non-hex character met before that.
pub fn hamming_distance_string_dispatch_with_max(a: &[u8], b: &[u8], max_dist: u64) -> (r: Result<
    u64,
    &'static str,
>)
    requires
        a.len() == b.len(),
        distance_fits(a.len() as nat),
    ensures
        r is Err <==> hex_fails_before_cutoff(a@, b@, max_dist),
        r matches Err(e) ==> e == ERR_INVALID_HEX,
        r == Ok::<u64, &'static str>(u64::MAX) <==> hex_exceeds(a@, b@, max_dist),
        r matches Ok(v) ==> (v != u64::MAX ==> all_hex_upto(a@, b@, a.len() as int) && v
            == hex_distance(a@, b@) && v <= max_dist),
{
    hamming_distance_string_with_max(a, b, max_dist)
}

/// Bitwise Hamming distance between two equal-length hex strings (either case).
///
/// Fails when the lengths differ or a character is not a hex digit.
pub fn hex_hamming_distance(a: &str, b: &str) -> (r: Result<u64, &'static str>)
    requires
        distance_fits(a.spec_bytes().len() as nat),
    ensures
        a.spec_bytes().len() != b.spec_bytes().len() ==> r == Err::<u64, &'static str>(
            ERR_STRING_LENGTHS,
        ),
        a.spec_bytes().len() == b.spec_bytes().len() ==> {
            &&& r is Ok <==> all_hex_upto(a.spec_bytes(), b.spec_bytes(), a.spec_bytes().len() as int)
            &&& r matches Ok(v) ==> v == hex_distance(a.spec_bytes(), b.spec_bytes())
            &&& r matches Err(e) ==> e == ERR_INVALID_HEX
        },
{
    let a_bytes = a.as_bytes();
    let b_bytes = b.as_bytes();
    if a_bytes.len() != b_bytes.len() {
        return Err(ERR_STRING_LENGTHS);
    }
    if a_bytes.len() == 0 {
        return Ok(0);
    }
    hamming_distance_string_dispatch(a_bytes, b_bytes)
}

/// [`hex_hamming_distance`] with the packed kernel for every length from 32
/// characters on: sixteen characters decoded per step, their nibble
/// differences packed into one word and counted with one popcount.
pub fn hex_hamming_distance_pack(a: &str, b: &str) -> (r: Result<u64, &'static str>)
    requires
        distance_fits(a.spec_bytes().len() as nat),
    ensures
        a.spec_bytes().len() != b.spec_bytes().len() ==> r == Err::<u64, &'static str>(
            ERR_STRING_LENGTHS,
        ),
        a.spec_bytes().len() == b.spec_bytes().len() ==> {
            &&& r is Ok <==> all_hex_upto(a.spec_bytes(), b.spec_bytes(), a.spec_bytes().len() as int)
            &&& r matches Ok(v) ==> v == hex_distance(a.spec_bytes(), b.spec_bytes())
            &&& r matches Err(e) ==> e == ERR_INVALID_HEX
        },
{
    let a_bytes = a.as_bytes();
    let b_bytes = b.as_bytes();
    if a_bytes.len() != b_bytes.len() {
        return Err(ERR_STRING_LENGTHS);
    }
    if a_bytes.len() == 0 {
        return Ok(0);
    }
    hamming_distance_string_packed(a_bytes, b_bytes)
}

/// Bitwise Hamming distance between two equal-length byte slices.
///
/// Fails when the lengths differ.
pub fn bytes_hamming_distance(a: &[u8], b: &[u8]) -> (r: Result<u64, &'static str>)
    requires
        distance_fits(a.len() as nat),
    ensures
        a.len() != b.len() ==> r == Err::<u64, &'static str>(ERR_BYTES_LENGTHS),
        a.len() == b.len() ==> r == Ok::<u64, &'static str>(hamming(a@, b@) as u64),
{
    if a.len() != b.len() {
        return Err(ERR_BYTES_LENGTHS);
    }
    if a.len() == 0 {
        return Ok(0);
    }
    let d = hamming_distance_bytes_dispatch(a, b, -1);
    proof {
        lemma_bounded_result(a@, b@, -1i64);
    }
    Ok(d)
}

/// Whether two non-empty, equal-length byte arrays differ in at most
/// `max_dist` bits (any distance when `max_dist` is negative).
pub fn bytes_within_dist(a: &[u8], b: &[u8], max_dist: i64) -> (r: Result<bool, &'static str>)
    requires
        distance_fits(a.len() as nat),
    ensures
        (a.len() == 0 || b.len() == 0) ==> r == Err::<bool, &'static str>(ERR_EMPTY_ARRAY),
        (a.len() > 0 && b.len() > 0 && a.len() != b.len()) ==> r == Err::<bool, &'static str>(
            ERR_ARRAY_SIZES,
        ),
        (a.len() > 0 && a.len() == b.len()) ==> r == Ok::<bool, &'static str>(
            within(hamming(a@, b@), max_dist),
        ),
{
    if a.len() == 0 || b.len() == 0 {
        return Err(ERR_EMPTY_ARRAY);
    }
    if a.len() != b.len() {
        return Err(ERR_ARRAY_SIZES);
    }
    let d = hamming_distance_bytes_dispatch(a, b, max_dist);
    proof {
        lemma_bounded_result(a@, b@, max_dist);
    }
    Ok(d != u64::MAX)
}

/// The query is non-empty and the catalog holds whole records of its width.
pub open spec fn valid_array_query(big: Seq<u8>, small: Seq<u8>) -> bool {
    small.len() > 0 && big.len() % small.len() == 0
}

/// The error a malformed catalog/query pair is rejected with.
pub open spec fn array_query_error(big: Seq<u8>, small: Seq<u8>) -> &'static str {
    if small.len() == 0 {
        ERR_EMPTY_ELEM
    } else {
        ERR_NOT_MULTIPLE
    }
}

fn validate_array_query(big_array: &[u8], small_array: &[u8]) -> (r: Result<(), &'static str>)
    ensures
        r is Ok <==> valid_array_query(big_array@, small_array@),
        r matches Err(e) ==> e == array_query_error(big_array@, small_array@),
{
    if small_array.len() == 0 {
        return Err(ERR_EMPTY_ELEM);
    }
    if big_array.len() % small_array.len() != 0 {
        return Err(ERR_NOT_MULTIPLE);
    }
    Ok(())
}

/// Index of the first record of `big_array` (records as wide as
/// `small_array`) within `max_dist` of `small_array`, or `None`.
pub fn bytes_array_first_within_dist(big_array: &[u8], small_array: &[u8], max_dist: i64) -> (r:
    Result<Option<usize>, &'static str>)
    requires
        distance_fits(small_array.len() as nat),
    ensures
        !valid_array_query(big_array@, small_array@) ==> r == Err::<Option<usize>, &'static str>(
            array_query_error(big_array@, small_array@),
        ),
        valid_array_query(big_array@, small_array@) ==> (r matches Ok(found) && is_first_match(
            big_array@,
            small_array@,
            max_dist,
            0,
            record_count(big_array@, small_array.len() as int),
            found,
        )),
{
    validate_array_query(big_array, small_array)?;
    Ok(Scan::new(small_array, max_dist).first(big_array))
}

/// The record of `big_array` closest to `small_array` within `max_dist`
/// (lowest index among ties) as `(distance, index)`, or `None`.
pub fn bytes_array_best_within_dist(big_array: &[u8], small_array: &[u8], max_dist: i64) -> (r:
    Result<Option<(u64, usize)>, &'static str>)
    requires
        distance_fits(small_array.len() as nat),
    ensures
        !valid_array_query(big_array@, small_array@) ==> r == Err::<
            Option<(u64, usize)>,
            &'static str,
        >(array_query_error(big_array@, small_array@)),
        valid_array_query(big_array@, small_array@) ==> (r matches Ok(best) && is_best_match(
            big_array@,
            small_array@,
            max_dist,
            0,
            record_count(big_array@, small_array.len() as int),
            best,
        )),
{
    validate_array_query(big_array, small_array)?;
    Ok(Scan::new(small_array, max_dist).best(big_array))
}

/// Every record of `big_array` within `max_dist` of `small_array`, as
/// `(distance, index)` in ascending index order.
pub fn bytes_array_all_within_dist(big_array: &[u8], small_array: &[u8], max_dist: i64) -> (r:
    Result<Vec<(u64, usize)>, &'static str>)
    requires
        distance_fits(small_array.len() as nat),
    ensures
        !valid_array_query(big_array@, small_array@) ==> r is Err && r->Err_0 == array_query_error(
            big_array@,
            small_array@,
        ),
        valid_array_query(big_array@, small_array@) ==> r is Ok && r->Ok_0@ == all_matches(
            big_array@,
            small_array@,
            max_dist,
            0,
            record_count(big_array@, small_array.len() as int),
        ),
{
    validate_array_query(big_array, small_array)?;
    Ok(Scan::new(small_array, max_dist).all(big_array))
}

} // verus!
