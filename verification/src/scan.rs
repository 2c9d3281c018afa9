//! Serial scans of a fixed-width catalog for records near a query.

use vstd::prelude::*;
use crate::distance::{
    bounded_result, distance_fits, hamming, within, lemma_distance_upto_bounds,
};
use crate::kernels::{hamming_distance_bytes_classic, hamming_distance_bytes_native};
use crate::records::{
    all_matches, is_best_match, is_first_match, is_match, record, record_count, record_distance,
    lemma_record_bounds,
};

verus! {

/// A byte-distance kernel. Both compute the same distances and differ only in
/// how a 64-bit word's bits are counted.
#[derive(Clone, Copy, Debug, PartialEq, Eq, Structural)]
pub enum Kernel {
    /// Bit-parallel reduction with shifts, masks and one multiplication.
    Classic,
    /// The processor's population-count instruction.
    Native,
}

impl Kernel {
    /// Distance of two equal-length byte arrays; with `max_dist >= 0`, the
    /// `u64::MAX` sentinel once the distance exceeds `max_dist`.
    pub fn distance(&self, a: &[u8], b: &[u8], max_dist: i64) -> (r: u64)
        requires
            a.len() == b.len(),
            distance_fits(a.len() as nat),
        ensures
            r == bounded_result(hamming(a@, b@), max_dist),
    {
        match self {
            Kernel::Classic => hamming_distance_bytes_classic(a, b, max_dist),
            Kernel::Native => hamming_distance_bytes_native(a, b, max_dist),
        }
    }
}

/// The sentinel never stands for a real distance.
pub proof fn lemma_bounded_result(a: Seq<u8>, b: Seq<u8>, max_dist: i64)
    requires
        distance_fits(a.len() as nat),
    ensures
        hamming(a, b) < u64::MAX,
        (bounded_result(hamming(a, b), max_dist) != u64::MAX) <==> within(hamming(a, b), max_dist),
        hamming(a, b) <= 8 * a.len(),
{
    lemma_distance_upto_bounds(a, b, a.len() as int);
}

/// Record `i` of the catalog as a slice.
pub fn record_slice<'a>(big: &'a [u8], w: usize, i: usize) -> (r: &'a [u8])
    requires
        0 < w,
        i < big.len() / w,
    ensures
        r@ == record(big@, w as int, i as int),
        r.len() == w,
{
    proof {
        lemma_record_bounds(big.len() as int, w as int, i as int);
    }
    vstd::slice::slice_subrange(big, i * w, i * w + w)
}

/// Lowest index of a record within `max_dist` of `small_array`, if any.
pub fn serial_first_within_dist(
    big_array: &[u8],
    small_array: &[u8],
    max_dist: i64,
    kernel: Kernel,
) -> (r: Option<usize>)
    requires
        small_array.len() > 0,
        distance_fits(small_array.len() as nat),
    ensures
        is_first_match(
            big_array@,
            small_array@,
            max_dist,
            0,
            record_count(big_array@, small_array.len() as int),
            r,
        ),
{
    let elem_size = small_array.len();
    let num_elements = big_array.len() / elem_size;
    let mut i: usize = 0;
    while i < num_elements
        invariant
            i <= num_elements,
            elem_size == small_array.len(),
            elem_size > 0,
            distance_fits(elem_size as nat),
            num_elements == record_count(big_array@, elem_size as int),
            forall|j: int| 0 <= j < i ==> !#[trigger] is_match(big_array@, small_array@, max_dist, j),
        decreases num_elements - i,
    {
        let chunk = record_slice(big_array, elem_size, i);
        let d = kernel.distance(chunk, small_array, max_dist);
        proof {
            lemma_bounded_result(chunk@, small_array@, max_dist);
        }
        if d != u64::MAX {
            return Some(i);
        }
        i = i + 1;
    }
    None
}

/// Closest record within `max_dist` of `small_array` (lowest index among
/// ties) with its distance; an exact match ends the scan.
pub fn serial_best_within_dist(
    big_array: &[u8],
    small_array: &[u8],
    max_dist: i64,
    kernel: Kernel,
) -> (r: Option<(u64, usize)>)
    requires
        small_array.len() > 0,
        distance_fits(small_array.len() as nat),
    ensures
        is_best_match(
            big_array@,
            small_array@,
            max_dist,
            0,
            record_count(big_array@, small_array.len() as int),
            r,
        ),
{
    let elem_size = small_array.len();
    let num_elements = big_array.len() / elem_size;
    let mut best: Option<(u64, usize)> = None;
    let mut i: usize = 0;
    while i < num_elements
        invariant
            i <= num_elements,
            elem_size == small_array.len(),
            elem_size > 0,
            distance_fits(elem_size as nat),
            num_elements == record_count(big_array@, elem_size as int),
            is_best_match(big_array@, small_array@, max_dist, 0, i as int, best),
            best matches Some((bd, _)) ==> 0 < bd <= 8 * elem_size,
        decreases num_elements - i,
    {
        let chunk = record_slice(big_array, elem_size, i);
        let threshold: i64 = match best {
            Some((bd, _)) => bd as i64 - 1,
            None => max_dist,
        };
        let d = kernel.distance(chunk, small_array, threshold);
        proof {
            lemma_bounded_result(chunk@, small_array@, threshold);
            lemma_bounded_result(chunk@, small_array@, max_dist);
        }
        if d != u64::MAX {
            let better = match best {
                None => true,
                Some((bd, _)) => d < bd,
            };
            if better {
                best = Some((d, i));
                if d == 0 {
                    proof {
                        assert forall|j: int|
                            0 <= j < num_elements && #[trigger] is_match(
                                big_array@,
                                small_array@,
                                max_dist,
                                j,
                            ) implies d <= record_distance(big_array@, small_array@, j) by {}
                    }
                    return best;
                }
            }
        }
        i = i + 1;
    }
    best
}

/// Every record within `max_dist` of `small_array`, as `(distance, index)` in
/// index order.
pub fn serial_all_within_dist(
    big_array: &[u8],
    small_array: &[u8],
    max_dist: i64,
    kernel: Kernel,
) -> (r: Vec<(u64, usize)>)
    requires
        small_array.len() > 0,
        distance_fits(small_array.len() as nat),
    ensures
        r@ == all_matches(
            big_array@,
            small_array@,
            max_dist,
            0,
            record_count(big_array@, small_array.len() as int),
        ),
{
    let elem_size = small_array.len();
    let num_elements = big_array.len() / elem_size;
    let mut results: Vec<(u64, usize)> = Vec::new();
    let mut i: usize = 0;
    while i < num_elements
        invariant
            i <= num_elements,
            elem_size == small_array.len(),
            elem_size > 0,
            distance_fits(elem_size as nat),
            num_elements == record_count(big_array@, elem_size as int),
            results@ == all_matches(big_array@, small_array@, max_dist, 0, i as int),
        decreases num_elements - i,
    {
        let chunk = record_slice(big_array, elem_size, i);
        let d = kernel.distance(chunk, small_array, max_dist);
        proof {
            lemma_bounded_result(chunk@, small_array@, max_dist);
        }
        if d != u64::MAX {
            results.push((d, i));
        }
        i = i + 1;
    }
    results
}

} // verus!
