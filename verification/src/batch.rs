//! Batch APIs: many distances or many queries per call, with one validation
//! and one kernel choice per batch.

use vstd::prelude::*;
use crate::algo::Algorithm;
use crate::api::{
    bytes_array_all_within_dist, has_block_scanner, select_bytes_kernel, Scan,
};
use crate::distance::{distance_fits, hamming};
use crate::records::{all_matches, is_best_match, is_first_match, record, record_count};
use crate::scan::{lemma_bounded_result, record_slice, Kernel};

verus! {

pub const ERR_ZERO_ELEMENT_SIZE: &'static str = "`element_size` must be >0";
pub const ERR_BYTES_LENGTHS: &'static str = "bytes are NOT the same length";
pub const ERR_LENGTH_NOT_MULTIPLE: &'static str = "length must be a multiple of `element_size`";
pub const ERR_OUT_OVERFLOW: &'static str = "output capacity overflows";
pub const ERR_OUT_SIZE: &'static str = "`out` must be exactly count*8 bytes";
pub const ERR_ZERO_QUERY_WIDTH: &'static str = "`query_width` must be >0";
pub const ERR_CATALOG_NOT_MULTIPLE: &'static str = "catalog length must be a multiple of `query_width`";
pub const ERR_QUERIES_NOT_MULTIPLE: &'static str = "queries length must be a multiple of `query_width`";
pub const ERR_EMPTY_ELEM: &'static str = "`elem_to_compare` size must be >0";
pub const ERR_NOT_MULTIPLE: &'static str =
    "`array_of_elems` size must be multiplier of `elem_to_compare`";
pub const ERR_WIDTH_TOO_LARGE: &'static str = "element width too large for u16 packed distances";
pub const ERR_TOO_MANY_RECORDS: &'static str = "catalog record count exceeds u32::MAX";
pub const ERR_OUTPUT_BUFFERS: &'static str =
    "output buffers must have capacity for at least num_records entries";

/// The error a pairwise request is rejected with, if any.
pub open spec fn pairwise_error(a: Seq<u8>, b: Seq<u8>, element_size: usize) -> Option<&'static str> {
    if element_size == 0 {
        Some(ERR_ZERO_ELEMENT_SIZE)
    } else if a.len() != b.len() {
        Some(ERR_BYTES_LENGTHS)
    } else if a.len() % (element_size as nat) != 0 {
        Some(ERR_LENGTH_NOT_MULTIPLE)
    } else {
        None
    }
}

/// Distance of the `i`-th records of two catalogs of `w`-byte records.
pub open spec fn pair_distance(a: Seq<u8>, b: Seq<u8>, w: int, i: int) -> nat {
    hamming(record(a, w, i), record(b, w, i))
}

/// Hamming distances between corresponding `element_size`-byte records of two
/// equal-length buffers, one per record in order.
pub fn bytes_pairwise_distances(a: &[u8], b: &[u8], element_size: usize) -> (r: Result<
    Vec<u64>,
    &'static str,
>)
    requires
        distance_fits(element_size as nat),
    ensures
        pairwise_error(a@, b@, element_size) matches Some(e) ==> r == Err::<Vec<u64>, &'static str>(
            e,
        ),
        pairwise_error(a@, b@, element_size) is None ==> r is Ok && r->Ok_0@.len() == record_count(
            a@,
            element_size as int,
        ) && forall|i: int|
            0 <= i < r->Ok_0@.len() ==> #[trigger] r->Ok_0@[i] == pair_distance(
                a@,
                b@,
                element_size as int,
                i,
            ),
{
    if element_size == 0 {
        return Err(ERR_ZERO_ELEMENT_SIZE);
    }
    if a.len() != b.len() {
        return Err(ERR_BYTES_LENGTHS);
    }
    if a.len() % element_size != 0 {
        return Err(ERR_LENGTH_NOT_MULTIPLE);
    }
    let count = a.len() / element_size;
    let kernel = select_bytes_kernel(Algorithm::Native);
    let mut out: Vec<u64> = Vec::new();
    let mut i: usize = 0;
    while i < count
        invariant
            i <= count,
            element_size > 0,
            distance_fits(element_size as nat),
            a.len() == b.len(),
            count == record_count(a@, element_size as int),
            count == record_count(b@, element_size as int),
            out@.len() == i,
            forall|j: int|
                0 <= j < i ==> #[trigger] out@[j] == pair_distance(a@, b@, element_size as int, j),
        decreases count - i,
    {
        let ra = record_slice(a, element_size, i);
        let rb = record_slice(b, element_size, i);
        let d = kernel.distance(ra, rb, -1);
        proof {
            lemma_bounded_result(ra@, rb@, -1i64);
        }
        out.push(d);
        i = i + 1;
    }
    Ok(out)
}

/// `d` as eight little-endian bytes.
pub open spec fn le_bytes(d: u64) -> Seq<u8> {
    Seq::new(8, |k: int| ((d >> (8 * k) as u64) & 0xff) as u8)
}

/// Writes `d` as eight little-endian bytes at `out[base..base + 8]`.
fn write_le_u64(out: &mut [u8], base: usize, d: u64)
    requires
        base + 8 <= old(out)@.len(),
    ensures
        final(out)@.len() == old(out)@.len(),
        forall|j: int|
            0 <= j < old(out)@.len() && (j < base || j >= base + 8) ==> final(out)@[j] == old(out)@[j],
        forall|m: int| 0 <= m < 8 ==> #[trigger] final(out)@[base + m] == le_bytes(d)[m],
{
    let ghost before = out@;
    let n = out.len();
    let mut k: usize = 0;
    while k < 8
        invariant
            k <= 8,
            n == before.len(),
            base + 8 <= before.len(),
            out@.len() == before.len(),
            forall|j: int| 0 <= j < out@.len() && (j < base || j >= base + 8) ==> out@[j] == before[j],
            forall|m: int| 0 <= m < k ==> #[trigger] out@[base + m] == le_bytes(d)[m],
        decreases 8 - k,
    {
        out[base + k] = ((d >> (8 * k) as u64) & 0xff) as u8;
        k = k + 1;
    }
}

/// Like [`bytes_pairwise_distances`], writing each distance as eight
/// little-endian bytes into `out`, which must hold exactly `count * 8`
/// bytes. Returns the number of distances written.
pub fn bytes_pairwise_distances_into(
    a: &[u8],
    b: &[u8],
    element_size: usize,
    out: &mut [u8],
) -> (r: Result<usize, &'static str>)
    requires
        distance_fits(element_size as nat),
    ensures
        pairwise_error(a@, b@, element_size) matches Some(e) ==> r == Err::<usize, &'static str>(e)
            && final(out)@ == old(out)@,
        pairwise_error(a@, b@, element_size) is None && old(out)@.len() != record_count(
            a@,
            element_size as int,
        ) * 8 ==> final(out)@ == old(out)@,
        pairwise_error(a@, b@, element_size) is None && record_count(a@, element_size as int) * 8
            > usize::MAX ==> r == Err::<usize, &'static str>(ERR_OUT_OVERFLOW),
        pairwise_error(a@, b@, element_size) is None && record_count(a@, element_size as int) * 8
            <= usize::MAX && old(out)@.len() != record_count(a@, element_size as int) * 8 ==> r
            == Err::<usize, &'static str>(ERR_OUT_SIZE),
        pairwise_error(a@, b@, element_size) is None && old(out)@.len() == record_count(
            a@,
            element_size as int,
        ) * 8 ==> r == Ok::<usize, &'static str>(record_count(a@, element_size as int) as usize)
            && final(out)@.len() == old(out)@.len() && forall|i: int, k: int|
            0 <= i < record_count(a@, element_size as int) && 0 <= k < 8 ==> #[trigger] final(out)@[i
                * 8 + k] == le_bytes(pair_distance(a@, b@, element_size as int, i) as u64)[k],
{
    if element_size == 0 {
        return Err(ERR_ZERO_ELEMENT_SIZE);
    }
    if a.len() != b.len() {
        return Err(ERR_BYTES_LENGTHS);
    }
    if a.len() % element_size != 0 {
        return Err(ERR_LENGTH_NOT_MULTIPLE);
    }
    let count = a.len() / element_size;
    let out_len = out.len();
    let expected = match count.checked_mul(8) {
        Some(v) => v,
        None => {
            proof {
                assert(out@.len() == out_len);
            }
            return Err(ERR_OUT_OVERFLOW);
        },
    };
    if out_len != expected {
        return Err(ERR_OUT_SIZE);
    }
    let kernel = select_bytes_kernel(Algorithm::Native);
    let mut i: usize = 0;
    while i < count
        invariant
            i <= count,
            element_size > 0,
            distance_fits(element_size as nat),
            a.len() == b.len(),
            count == record_count(a@, element_size as int),
            count == record_count(b@, element_size as int),
            out@.len() == count * 8,
            expected == count * 8,
            forall|j: int, k: int|
                0 <= j < i && 0 <= k < 8 ==> #[trigger] out@[j * 8 + k] == le_bytes(
                    pair_distance(a@, b@, element_size as int, j) as u64,
                )[k],
        decreases count - i,
    {
        let ra = record_slice(a, element_size, i);
        let rb = record_slice(b, element_size, i);
        let d = kernel.distance(ra, rb, -1);
        proof {
            lemma_bounded_result(ra@, rb@, -1i64);
        }
        proof {
            assert(i * 8 + 8 <= count * 8) by (nonlinear_arith)
                requires
                    i < count,
            ;
        }
        let base = i * 8;
        let ghost before = out@;
        write_le_u64(out, base, d);
        proof {
            assert forall|j: int, k2: int|
                0 <= j < i + 1 && 0 <= k2 < 8 implies #[trigger] out@[j * 8 + k2] == le_bytes(
                pair_distance(a@, b@, element_size as int, j) as u64,
            )[k2] by {
                if j < i {
                    assert(j * 8 + k2 < base) by (nonlinear_arith)
                        requires
                            j < i,
                            0 <= k2 < 8,
                            base == i * 8,
                    ;
                    assert(0 <= j * 8 + k2) by (nonlinear_arith)
                        requires
                            0 <= j,
                            0 <= k2,
                    ;
                    assert(out@[j * 8 + k2] == before[j * 8 + k2]);
                } else {
                    assert(out@[base + k2] == le_bytes(d)[k2]);
                }
            }
        }
        i = i + 1;
    }
    Ok(count)
}


/// The error a multi-query request is rejected with, if any.
pub open spec fn multi_error(catalog: Seq<u8>, queries: Seq<u8>, query_width: usize) -> Option<
    &'static str,
> {
    if query_width == 0 {
        Some(ERR_ZERO_QUERY_WIDTH)
    } else if catalog.len() % (query_width as nat) != 0 {
        Some(ERR_CATALOG_NOT_MULTIPLE)
    } else if queries.len() % (query_width as nat) != 0 {
        Some(ERR_QUERIES_NOT_MULTIPLE)
    } else {
        None
    }
}

/// Validates a catalog and its queries, and returns the number of queries
/// with the kernel and scanner choice for their width.
fn resolve_multi_scan(catalog: &[u8], queries: &[u8], query_width: usize) -> (r: Result<
    (usize, Kernel, bool),
    &'static str,
>)
    ensures
        multi_error(catalog@, queries@, query_width) matches Some(e) ==> r == Err::<
            (usize, Kernel, bool),
            &'static str,
        >(e),
        multi_error(catalog@, queries@, query_width) is None ==> (r matches Ok(t) && t.0
            == record_count(queries@, query_width as int)),
{
    if query_width == 0 {
        return Err(ERR_ZERO_QUERY_WIDTH);
    }
    if catalog.len() % query_width != 0 {
        return Err(ERR_CATALOG_NOT_MULTIPLE);
    }
    if queries.len() % query_width != 0 {
        return Err(ERR_QUERIES_NOT_MULTIPLE);
    }
    let kernel = select_bytes_kernel(Algorithm::Native);
    let scanner = has_block_scanner(query_width);
    Ok((queries.len() / query_width, kernel, scanner))
}

/// For each `query_width`-byte query of `queries`, in order, the first record
/// of `catalog` within `max_dist` of it.
pub fn bytes_array_first_many_within_dist(
    catalog: &[u8],
    queries: &[u8],
    query_width: usize,
    max_dist: i64,
) -> (r: Result<Vec<Option<usize>>, &'static str>)
    requires
        distance_fits(query_width as nat),
    ensures
        multi_error(catalog@, queries@, query_width) matches Some(e) ==> r == Err::<
            Vec<Option<usize>>,
            &'static str,
        >(e),
        multi_error(catalog@, queries@, query_width) is None ==> r is Ok && r->Ok_0@.len()
            == record_count(queries@, query_width as int) && forall|q: int|
            0 <= q < r->Ok_0@.len() ==> is_first_match(
                catalog@,
                record(queries@, query_width as int, q),
                max_dist,
                0,
                record_count(catalog@, query_width as int),
                #[trigger] r->Ok_0@[q],
            ),
{
    let (query_count, kernel, scanner) = resolve_multi_scan(catalog, queries, query_width)?;
    let mut out: Vec<Option<usize>> = Vec::new();
    let mut q: usize = 0;
    while q < query_count
        invariant
            q <= query_count,
            query_width > 0,
            distance_fits(query_width as nat),
            query_count == record_count(queries@, query_width as int),
            out@.len() == q,
            forall|j: int|
                0 <= j < q ==> is_first_match(
                    catalog@,
                    record(queries@, query_width as int, j),
                    max_dist,
                    0,
                    record_count(catalog@, query_width as int),
                    #[trigger] out@[j],
                ),
        decreases query_count - q,
    {
        let query = record_slice(queries, query_width, q);
        let result = Scan::with_kernels(query, max_dist, kernel, scanner).first(catalog);
        out.push(result);
        q = q + 1;
    }
    Ok(out)
}

/// For each query of `queries`, in order, the closest record of `catalog`
/// within `max_dist` (lowest index among ties).
pub fn bytes_array_best_many_within_dist(
    catalog: &[u8],
    queries: &[u8],
    query_width: usize,
    max_dist: i64,
) -> (r: Result<Vec<Option<(u64, usize)>>, &'static str>)
    requires
        distance_fits(query_width as nat),
    ensures
        multi_error(catalog@, queries@, query_width) matches Some(e) ==> r == Err::<
            Vec<Option<(u64, usize)>>,
            &'static str,
        >(e),
        multi_error(catalog@, queries@, query_width) is None ==> r is Ok && r->Ok_0@.len()
            == record_count(queries@, query_width as int) && forall|q: int|
            0 <= q < r->Ok_0@.len() ==> is_best_match(
                catalog@,
                record(queries@, query_width as int, q),
                max_dist,
                0,
                record_count(catalog@, query_width as int),
                #[trigger] r->Ok_0@[q],
            ),
{
    let (query_count, kernel, scanner) = resolve_multi_scan(catalog, queries, query_width)?;
    let mut out: Vec<Option<(u64, usize)>> = Vec::new();
    let mut q: usize = 0;
    while q < query_count
        invariant
            q <= query_count,
            query_width > 0,
            distance_fits(query_width as nat),
            query_count == record_count(queries@, query_width as int),
            out@.len() == q,
            forall|j: int|
                0 <= j < q ==> is_best_match(
                    catalog@,
                    record(queries@, query_width as int, j),
                    max_dist,
                    0,
                    record_count(catalog@, query_width as int),
                    #[trigger] out@[j],
                ),
        decreases query_count - q,
    {
        let query = record_slice(queries, query_width, q);
        let result = Scan::with_kernels(query, max_dist, kernel, scanner).best(catalog);
        out.push(result);
        q = q + 1;
    }
    Ok(out)
}

/// For each query of `queries`, in order, every record of `catalog` within
/// `max_dist` as `(distance, index)` in index order.
pub fn bytes_array_all_many_within_dist(
    catalog: &[u8],
    queries: &[u8],
    query_width: usize,
    max_dist: i64,
) -> (r: Result<Vec<Vec<(u64, usize)>>, &'static str>)
    requires
        distance_fits(query_width as nat),
    ensures
        multi_error(catalog@, queries@, query_width) matches Some(e) ==> r is Err && r->Err_0 == e,
        multi_error(catalog@, queries@, query_width) is None ==> r is Ok && r->Ok_0@.len()
            == record_count(queries@, query_width as int) && forall|q: int|
            0 <= q < r->Ok_0@.len() ==> (#[trigger] r->Ok_0@[q])@ == all_matches(
                catalog@,
                record(queries@, query_width as int, q),
                max_dist,
                0,
                record_count(catalog@, query_width as int),
            ),
{
    let (query_count, kernel, scanner) = resolve_multi_scan(catalog, queries, query_width)?;
    let mut out: Vec<Vec<(u64, usize)>> = Vec::new();
    let mut q: usize = 0;
    while q < query_count
        invariant
            q <= query_count,
            query_width > 0,
            distance_fits(query_width as nat),
            query_count == record_count(queries@, query_width as int),
            out@.len() == q,
            forall|j: int|
                0 <= j < q ==> (#[trigger] out@[j])@ == all_matches(
                    catalog@,
                    record(queries@, query_width as int, j),
                    max_dist,
                    0,
                    record_count(catalog@, query_width as int),
                ),
        decreases query_count - q,
    {
        let query = record_slice(queries, query_width, q);
        let result = Scan::with_kernels(query, max_dist, kernel, scanner).all(catalog);
        out.push(result);
        q = q + 1;
    }
    Ok(out)
}

/// The error a packed all-matches request is rejected with, if any.
pub open spec fn packed_error(big: Seq<u8>, small: Seq<u8>) -> Option<&'static str> {
    if small.len() == 0 {
        Some(ERR_EMPTY_ELEM)
    } else if big.len() % small.len() != 0 {
        Some(ERR_NOT_MULTIPLE)
    } else if 8 * small.len() > u16::MAX {
        Some(ERR_WIDTH_TOO_LARGE)
    } else if big.len() / small.len() > u32::MAX {
        Some(ERR_TOO_MANY_RECORDS)
    } else {
        None
    }
}

fn validate_packed(big_array: &[u8], small_array: &[u8]) -> (r: Result<usize, &'static str>)
    ensures
        packed_error(big_array@, small_array@) matches Some(e) ==> r == Err::<usize, &'static str>(e),
        packed_error(big_array@, small_array@) is None ==> r == Ok::<usize, &'static str>(
            (big_array.len() / small_array.len()) as usize,
        ),
{
    let width = small_array.len();
    if width == 0 {
        return Err(ERR_EMPTY_ELEM);
    }
    if big_array.len() % width != 0 {
        return Err(ERR_NOT_MULTIPLE);
    }
    let max_bits: u64 = match (width as u64).checked_mul(8) {
        Some(v) => v,
        None => u64::MAX,
    };
    if max_bits > 65535 {
        return Err(ERR_WIDTH_TOO_LARGE);
    }
    let num_records = big_array.len() / width;
    if num_records as u64 > 4294967295 {
        return Err(ERR_TOO_MANY_RECORDS);
    }
    Ok(num_records)
}

/// `ds` and `ids` hold the distances and the indices of `all`, in order.
pub open spec fn packed_as(all: Seq<(u64, usize)>, ds: Seq<u16>, ids: Seq<u32>) -> bool {
    &&& ds.len() == all.len()
    &&& ids.len() == all.len()
    &&& forall|k: int| 0 <= k < all.len() ==> #[trigger] ds[k] == all[k].0 && ids[k] == all[k].1
}

/// [`bytes_array_all_within_dist`] in dense form: matched distances as `u16`
/// and matched indices as `u32`, in ascending index order.
pub fn bytes_array_all_within_dist_packed(big_array: &[u8], small_array: &[u8], max_dist: i64) -> (r:
    Result<(Vec<u16>, Vec<u32>), &'static str>)
    requires
        distance_fits(small_array.len() as nat),
    ensures
        packed_error(big_array@, small_array@) matches Some(e) ==> r is Err && r->Err_0 == e,
        packed_error(big_array@, small_array@) is None ==> (r matches Ok(p) && packed_as(
            all_matches(
                big_array@,
                small_array@,
                max_dist,
                0,
                record_count(big_array@, small_array.len() as int),
            ),
            p.0@,
            p.1@,
        )),
{
    validate_packed(big_array, small_array)?;
    let matches = match bytes_array_all_within_dist(big_array, small_array, max_dist) {
        Ok(m) => m,
        Err(e) => {
            return Err(e);
        },
    };
    let ghost count = record_count(big_array@, small_array.len() as int);
    proof {
        crate::records::lemma_all_matches_indices(big_array@, small_array@, max_dist, 0, count);
        assert forall|k: int| 0 <= k < matches@.len() implies (#[trigger] matches@[k]).0 <= 8
            * small_array.len() by {
            lemma_all_matches_distances(big_array@, small_array@, max_dist, 0, count, k);
        }
    }
    let mut distances: Vec<u16> = Vec::new();
    let mut indices: Vec<u32> = Vec::new();
    let mut k: usize = 0;
    while k < matches.len()
        invariant
            k <= matches.len(),
            distances@.len() == k,
            indices@.len() == k,
            8 * small_array.len() <= u16::MAX,
            count <= u32::MAX,
            forall|j: int| 0 <= j < matches@.len() ==> (#[trigger] matches@[j]).0 <= 8 * small_array.len(),
            forall|j: int| 0 <= j < matches@.len() ==> (#[trigger] matches@[j]).1 < count,
            forall|j: int|
                0 <= j < k ==> #[trigger] distances@[j] == matches@[j].0 && indices@[j] == matches@[j].1,
        decreases matches.len() - k,
    {
        let (d, i) = matches[k];
        distances.push(d as u16);
        indices.push(i as u32);
        k = k + 1;
    }
    assert(matches@ == all_matches(big_array@, small_array@, max_dist, 0, count));
    assert(distances@.len() == matches@.len());
    assert(indices@.len() == matches@.len());
    assert(forall|j: int|
        0 <= j < matches@.len() ==> #[trigger] distances@[j] == matches@[j].0 && indices@[j]
            == matches@[j].1);
    Ok((distances, indices))
}

/// Distances in the matches list are record distances, so at most the
/// record's bit count.
pub proof fn lemma_all_matches_distances(
    big: Seq<u8>,
    query: Seq<u8>,
    max_dist: i64,
    lo: int,
    hi: int,
    k: int,
)
    requires
        0 <= lo,
        hi <= record_count(big, query.len() as int),
        0 < query.len(),
        0 <= k < all_matches(big, query, max_dist, lo, hi).len(),
    ensures
        all_matches(big, query, max_dist, lo, hi)[k].0 <= 8 * query.len(),
    decreases hi - lo,
{
    if hi > lo {
        let rest = all_matches(big, query, max_dist, lo, hi - 1);
        if k < rest.len() {
            lemma_all_matches_distances(big, query, max_dist, lo, hi - 1, k);
        } else {
            crate::records::lemma_record_bounds(big.len() as int, query.len() as int, hi - 1);
            crate::distance::lemma_distance_upto_bounds(
                record(big, query.len() as int, hi - 1),
                query,
                query.len() as int,
            );
        }
    }
}

/// [`bytes_array_all_within_dist_packed`] written into caller buffers that can
/// hold a match for every record. Returns the number of matches; entries
/// past it are left as they were.
pub fn bytes_array_all_within_dist_into(
    big_array: &[u8],
    small_array: &[u8],
    max_dist: i64,
    out_distances_u16: &mut [u16],
    out_indices_u32: &mut [u32],
) -> (r: Result<usize, &'static str>)
    requires
        distance_fits(small_array.len() as nat),
    ensures
        packed_error(big_array@, small_array@) matches Some(e) ==> r is Err && r->Err_0 == e,
        packed_error(big_array@, small_array@) is None && (old(out_distances_u16)@.len()
            < record_count(big_array@, small_array.len() as int) || old(out_indices_u32)@.len()
            < record_count(big_array@, small_array.len() as int)) ==> r == Err::<usize, &'static str>(
            ERR_OUTPUT_BUFFERS,
        ),
        r is Err ==> final(out_distances_u16)@ == old(out_distances_u16)@ && final(out_indices_u32)@ == old(out_indices_u32)@,
        packed_error(big_array@, small_array@) is None && old(out_distances_u16)@.len()
            >= record_count(big_array@, small_array.len() as int) && old(out_indices_u32)@.len()
            >= record_count(big_array@, small_array.len() as int) ==> r is Ok && {
            let all = all_matches(
                big_array@,
                small_array@,
                max_dist,
                0,
                record_count(big_array@, small_array.len() as int),
            );
            &&& r->Ok_0 == all.len()
            &&& final(out_distances_u16)@.len() == old(out_distances_u16)@.len()
            &&& final(out_indices_u32)@.len() == old(out_indices_u32)@.len()
            &&& forall|k: int|
                0 <= k < all.len() ==> #[trigger] final(out_distances_u16)@[k] == all[k].0
                    && final(out_indices_u32)@[k] == all[k].1
            &&& forall|k: int|
                all.len() <= k < old(out_distances_u16)@.len() ==> #[trigger] final(out_distances_u16)@[k] == old(out_distances_u16)@[k]
            &&& forall|k: int|
                all.len() <= k < old(out_indices_u32)@.len() ==> #[trigger] final(out_indices_u32)@[k] == old(out_indices_u32)@[k]
        },
{
    let num_records = validate_packed(big_array, small_array)?;
    if out_distances_u16.len() < num_records || out_indices_u32.len() < num_records {
        return Err(ERR_OUTPUT_BUFFERS);
    }
    let matches = match bytes_array_all_within_dist(big_array, small_array, max_dist) {
        Ok(m) => m,
        Err(e) => {
            return Err(e);
        },
    };
    let ghost count = record_count(big_array@, small_array.len() as int);
    proof {
        crate::records::lemma_all_matches_indices(big_array@, small_array@, max_dist, 0, count);
        assert forall|k: int| 0 <= k < matches@.len() implies (#[trigger] matches@[k]).0 <= 8
            * small_array.len() by {
            lemma_all_matches_distances(big_array@, small_array@, max_dist, 0, count, k);
        }
    }
    let ghost old_d = out_distances_u16@;
    let ghost old_i = out_indices_u32@;
    let mut k: usize = 0;
    while k < matches.len()
        invariant
            k <= matches.len(),
            matches@.len() <= count,
            count == num_records,
            num_records <= out_distances_u16@.len(),
            num_records <= out_indices_u32@.len(),
            out_distances_u16@.len() == old_d.len(),
            out_indices_u32@.len() == old_i.len(),
            8 * small_array.len() <= u16::MAX,
            count <= u32::MAX,
            forall|j: int| 0 <= j < matches@.len() ==> (#[trigger] matches@[j]).0 <= 8 * small_array.len(),
            forall|j: int| 0 <= j < matches@.len() ==> (#[trigger] matches@[j]).1 < count,
            forall|j: int|
                0 <= j < k ==> #[trigger] out_distances_u16@[j] == matches@[j].0
                    && out_indices_u32@[j] == matches@[j].1,
            forall|j: int| k <= j < old_d.len() ==> #[trigger] out_distances_u16@[j] == old_d[j],
            forall|j: int| k <= j < old_i.len() ==> #[trigger] out_indices_u32@[j] == old_i[j],
        decreases matches.len() - k,
    {
        let (d, i) = matches[k];
        let ghost prev_d = out_distances_u16@;
        let ghost prev_i = out_indices_u32@;
        out_distances_u16[k] = d as u16;
        out_indices_u32[k] = i as u32;
        assert(out_distances_u16@ == prev_d.update(k as int, d as u16));
        assert(out_indices_u32@ == prev_i.update(k as int, i as u32));
        k = k + 1;
    }
    Ok(matches.len())
}

/// Widths with a dedicated pairwise kernel.
pub open spec fn is_pairwise_width(width: usize) -> bool {
    width == 8 || width == 16 || width == 20 || width == 32 || width == 64
}

/// Whether `width` has a dedicated pairwise kernel.
pub fn has_pairwise_kernel(width: usize) -> (r: bool)
    ensures
        r == is_pairwise_width(width),
{
    width == 8 || width == 16 || width == 20 || width == 32 || width == 64
}

fn pair_kernel_distance(a: &[u8], b: &[u8], width: usize, i: usize) -> (d: u64)
    requires
        is_pairwise_width(width),
        a.len() == b.len(),
        i < record_count(a@, width as int),
    ensures
        d == pair_distance(a@, b@, width as int, i as int),
{
    let ra = record_slice(a, width, i);
    let rb = record_slice(b, width, i);
    proof {
        lemma_bounded_result(ra@, rb@, -1i64);
    }
    Kernel::Native.distance(ra, rb, -1)
}

/// Distances of corresponding `width`-byte records of `a` and `b`, four
/// pairs per step, for a width with a dedicated kernel.
pub fn pairwise_distances(a: &[u8], b: &[u8], width: usize) -> (r: Vec<u64>)
    requires
        is_pairwise_width(width),
        a.len() == b.len(),
    ensures
        r@.len() == record_count(a@, width as int),
        forall|i: int| 0 <= i < r@.len() ==> #[trigger] r@[i] == pair_distance(a@, b@, width as int, i),
{
    let count = a.len() / width;
    let mut out: Vec<u64> = Vec::new();
    let mut i: usize = 0;
    while count - i >= 4
        invariant
            is_pairwise_width(width),
            a.len() == b.len(),
            count == record_count(a@, width as int),
            i <= count,
            out@.len() == i,
            forall|j: int| 0 <= j < i ==> #[trigger] out@[j] == pair_distance(a@, b@, width as int, j),
        decreases count - i,
    {
        let d0 = pair_kernel_distance(a, b, width, i);
        let d1 = pair_kernel_distance(a, b, width, i + 1);
        let d2 = pair_kernel_distance(a, b, width, i + 2);
        let d3 = pair_kernel_distance(a, b, width, i + 3);
        out.push(d0);
        out.push(d1);
        out.push(d2);
        out.push(d3);
        i = i + 4;
    }
    while i < count
        invariant
            is_pairwise_width(width),
            a.len() == b.len(),
            count == record_count(a@, width as int),
            i <= count,
            out@.len() == i,
            forall|j: int| 0 <= j < i ==> #[trigger] out@[j] == pair_distance(a@, b@, width as int, j),
        decreases count - i,
    {
        out.push(pair_kernel_distance(a, b, width, i));
        i = i + 1;
    }
    out
}

/// Writes the distances of corresponding `width`-byte records of `a` and
/// `b` into `out`, eight little-endian bytes each, for a width with a
/// dedicated kernel.
pub fn pairwise_distances_into(a: &[u8], b: &[u8], width: usize, out: &mut [u8])
    requires
        is_pairwise_width(width),
        a.len() == b.len(),
        old(out)@.len() == record_count(a@, width as int) * 8,
    ensures
        final(out)@.len() == old(out)@.len(),
        forall|i: int, k: int|
            0 <= i < record_count(a@, width as int) && 0 <= k < 8 ==> #[trigger] final(out)@[i * 8 + k]
                == le_bytes(pair_distance(a@, b@, width as int, i) as u64)[k],
{
    let count = a.len() / width;
    let mut i: usize = 0;
    while i < count
        invariant
            is_pairwise_width(width),
            a.len() == b.len(),
            count == record_count(a@, width as int),
            i <= count,
            out@.len() == count * 8,
            forall|j: int, k: int|
                0 <= j < i && 0 <= k < 8 ==> #[trigger] out@[j * 8 + k] == le_bytes(
                    pair_distance(a@, b@, width as int, j) as u64,
                )[k],
        decreases count - i,
    {
        let d = pair_kernel_distance(a, b, width, i);
        proof {
            assert(i * 8 + 8 <= count * 8) by (nonlinear_arith)
                requires
                    i < count,
            ;
        }
        let base = i * 8;
        let ghost before = out@;
        write_le_u64(out, base, d);
        proof {
            assert forall|j: int, k2: int|
                0 <= j < i + 1 && 0 <= k2 < 8 implies #[trigger] out@[j * 8 + k2] == le_bytes(
                pair_distance(a@, b@, width as int, j) as u64,
            )[k2] by {
                if j < i {
                    assert(j * 8 + k2 < base) by (nonlinear_arith)
                        requires
                            j < i,
                            0 <= k2 < 8,
                            base == i * 8,
                    ;
                    assert(0 <= j * 8 + k2) by (nonlinear_arith)
                        requires
                            0 <= j,
                            0 <= k2,
                    ;
                    assert(out@[j * 8 + k2] == before[j * 8 + k2]);
                } else {
                    assert(out@[base + k2] == le_bytes(d)[k2]);
                }
            }
        }
        i = i + 1;
    }
}

} // verus!
