use hexhamming::scan::Kernel;
use hexhamming::hex::hamming_distance_string_with_max;
use hexhamming::packed::hamming_distance_string_packed_with_max;
use hexhamming::api::{
    bytes_array_all_within_dist, bytes_array_best_within_dist, bytes_array_first_within_dist,
    hex_hamming_distance, Scan,
};
use hexhamming::catalog::Catalog;
use hexhamming::kernels::{hamming_distance_bytes_classic, hamming_distance_bytes_native};
use hexhamming::par::plan;

fn records(width: usize, count: usize, seed: u64) -> Vec<u8> {
    let mut state = seed;
    (0..width * count)
        .map(|_| {
            state = state.wrapping_mul(6364136223846793005).wrapping_add(1442695040888963407);
            (state >> 40) as u8
        })
        .collect()
}

#[test]
fn first_match_heads_the_full_list() {
    let big = records(3, 500, 7);
    let small = &big[3 * 100..3 * 101].to_vec();
    for max_dist in [-1i64, 0, 2, 5, 9, 24] {
        let first = bytes_array_first_within_dist(&big, small, max_dist).unwrap();
        let all = bytes_array_all_within_dist(&big, small, max_dist).unwrap();
        assert_eq!(first, all.first().map(|&(_, i)| i), "max_dist={max_dist}");
    }
}

#[test]
fn best_match_is_closest_entry_of_full_list() {
    let big = records(5, 700, 11);
    let small = records(5, 1, 99);
    for max_dist in [-1i64, 0, 8, 12, 16, 40] {
        let best = bytes_array_best_within_dist(&big, &small, max_dist).unwrap();
        let all = bytes_array_all_within_dist(&big, &small, max_dist).unwrap();
        let expected = all.iter().copied().min_by_key(|&(d, i)| (d, i));
        assert_eq!(best, expected, "max_dist={max_dist}");
    }
}

#[test]
fn split_and_serial_scans_agree() {
    let big = records(16, 3000, 5);
    let small = big[16 * 1234..16 * 1235].to_vec();
    for max_dist in [-1i64, 0, 50, 60] {
        let scan = Scan::new(&small, max_dist);
        for threads in [2usize, 3, 8] {
            assert_eq!(scan.first_split(&big, 0, threads), scan.first(&big));
            assert_eq!(scan.best_split(&big, 0, threads), scan.best(&big));
            assert_eq!(scan.all_split(&big, 0, threads), scan.all(&big));
        }
    }
}

#[test]
fn indexed_and_linear_catalogs_agree() {
    let width = 8;
    let big = records(width, 1500, 21);
    let query = big[width * 77..width * 78].to_vec();
    let indexed = Catalog::with_index(&big, width).unwrap();
    let linear = Catalog::new(&big, width).unwrap();
    for max_dist in [-1i64, 0, 3, 6, 12, 20, 64] {
        assert_eq!(indexed.first_within(&query, max_dist), linear.first_within(&query, max_dist));
        assert_eq!(indexed.best_within(&query, max_dist), linear.best_within(&query, max_dist));
        assert_eq!(indexed.all_within(&query, max_dist), linear.all_within(&query, max_dist));
    }
}

#[test]
fn kernels_agree_and_report_the_sentinel() {
    let a = records(37, 1, 3);
    let b = records(37, 1, 4);
    let d = hamming_distance_bytes_native(&a, &b, -1);
    assert_eq!(hamming_distance_bytes_classic(&a, &b, -1), d);
    assert_eq!(hamming_distance_bytes_native(&a, &b, d as i64), d);
    assert_eq!(hamming_distance_bytes_native(&a, &b, d as i64 - 1), u64::MAX);
    assert_eq!(hamming_distance_bytes_classic(&a, &b, d as i64 - 1), u64::MAX);
}

#[test]
fn hex_distance_ignores_case() {
    assert_eq!(hex_hamming_distance("0aBcDeF9", "0AbCdEf9").unwrap(), 0);
    assert_eq!(hex_hamming_distance("A", "0").unwrap(), hex_hamming_distance("a", "0").unwrap());
}

#[test]
fn plan_chunks_are_contiguous() {
    let p = plan(10_000, 8, 0, 4).unwrap();
    let mut next = 0;
    for c in 0..p.chunks {
        let (s, e) = p.range(c, 10_000);
        assert_eq!(s, next);
        next = e;
    }
    assert_eq!(next, 10_000);
}

#[test]
fn packed_cutoff_never_reports_a_false_within() {
    let a: Vec<u8> = (0..96u32).map(|i| b"0123456789abcdef"[(i * 7 % 16) as usize]).collect();
    let b: Vec<u8> = (0..96u32).map(|i| b"0123456789abcdef"[(i * 5 % 16) as usize]).collect();
    for max in 0..400u64 {
        let packed = hamming_distance_string_packed_with_max(&a, &b, max);
        let exact = hamming_distance_string_with_max(&a, &b, max);
        // Both scans agree on valid strings, exactly or through the sentinel.
        assert_eq!(packed, exact, "max={max}");
        if let Ok(v) = packed {
            if v != u64::MAX {
                assert!(v <= max);
            }
        }
    }
}

#[test]
fn backend_choice_keeps_scan_results() {
    for width in [3usize, 8, 16, 32, 64] {
        let recs = records(width, 150, width as u64 + 7);
        let query = recs[5 * width..6 * width].to_vec();
        for max_dist in [-1i64, 0, 3, 20, 200] {
            let reference = Scan::with_kernels(&query, max_dist, Kernel::Classic, false);
            for kernel in [Kernel::Classic, Kernel::Native] {
                for block in [false, true] {
                    if block && !matches!(width, 8 | 16 | 32 | 64) {
                        continue;
                    }
                    let scan = Scan::with_kernels(&query, max_dist, kernel, block);
                    assert_eq!(scan.first(&recs), reference.first(&recs));
                    assert_eq!(scan.best(&recs), reference.best(&recs));
                    assert_eq!(scan.all(&recs), reference.all(&recs));
                }
            }
        }
    }
}
