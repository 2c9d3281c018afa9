use hexhamming::algo::{set_algorithm, Arch, CpuFeatures};
use hexhamming::api::{
    bytes_array_all_within_dist, bytes_array_best_within_dist, bytes_array_first_within_dist,
    select_bytes_kernel,
};
use hexhamming::batch::{
    bytes_array_all_many_within_dist, bytes_array_all_within_dist_into,
    bytes_array_all_within_dist_packed, bytes_array_best_many_within_dist,
    bytes_array_first_many_within_dist, bytes_pairwise_distances, bytes_pairwise_distances_into,
};

fn make_records(width: usize, count: usize, seed: u64) -> Vec<u8> {
    let mut state = seed;
    let mut out = Vec::with_capacity(width * count);
    for _ in 0..(width * count) {
        state = state.wrapping_mul(6364136223846793005).wrapping_add(1442695040888963407);
        out.push((state >> 33) as u8);
    }
    out
}

fn oracle_distance(a: &[u8], b: &[u8]) -> u64 {
    assert_eq!(a.len(), b.len());
    a.iter().zip(b.iter()).map(|(&x, &y)| (x ^ y).count_ones() as u64).sum()
}

#[test]
fn pairwise_matches_oracle_various_widths() {
    for &width in &[1usize, 16, 24, 32, 33] {
        let count = 41;
        let a = make_records(width, count, 0xDEAD_BEEF);
        let b = make_records(width, count, 0xCAFE_F00D);
        let expected: Vec<u64> = (0..count)
            .map(|i| oracle_distance(&a[i * width..(i + 1) * width], &b[i * width..(i + 1) * width]))
            .collect();
        let got = bytes_pairwise_distances(&a, &b, width).unwrap();
        assert_eq!(got, expected, "mismatch at width {width}");
    }
}

#[test]
fn pairwise_empty_batch() {
    let got = bytes_pairwise_distances(&[], &[], 16).unwrap();
    assert!(got.is_empty());
}

#[test]
fn pairwise_error_shapes() {
    assert!(bytes_pairwise_distances(b"aa", b"bb", 0).is_err());
    assert!(bytes_pairwise_distances(b"aaa", b"bbb", 2).is_err());
    assert!(bytes_pairwise_distances(b"aa", b"bbb", 1).is_err());
}

#[test]
fn pairwise_into_writes_le_and_returns_count() {
    let width = 16;
    let count = 5;
    let a = make_records(width, count, 1);
    let b = make_records(width, count, 2);
    let mut out = vec![0u8; count * 8];
    let n = bytes_pairwise_distances_into(&a, &b, width, &mut out).unwrap();
    assert_eq!(n, count);
    let list = bytes_pairwise_distances(&a, &b, width).unwrap();
    for (i, d) in list.iter().enumerate() {
        let bytes: [u8; 8] = out[i * 8..(i + 1) * 8].try_into().unwrap();
        assert_eq!(u64::from_le_bytes(bytes), *d);
    }
}

#[test]
fn pairwise_into_rejects_wrong_size() {
    let width = 16;
    let count = 5;
    let a = make_records(width, count, 1);
    let b = make_records(width, count, 2);
    let mut ok = vec![0u8; count * 8];
    assert!(bytes_pairwise_distances_into(&a, &b, width, &mut ok).is_ok());
    let mut short = vec![0u8; count * 8 - 1];
    assert!(bytes_pairwise_distances_into(&a, &b, width, &mut short).is_err());
    let mut long = vec![0u8; count * 8 + 1];
    assert!(bytes_pairwise_distances_into(&a, &b, width, &mut long).is_err());
}

#[test]
fn multi_query_first_matches_repeated_calls() {
    let width = 16;
    let catalog = make_records(width, 100, 11);
    let queries = make_records(width, 7, 12);
    let batch = bytes_array_first_many_within_dist(&catalog, &queries, width, 8).unwrap();
    assert_eq!(batch.len(), 7);
    for (q_index, want) in batch.iter().enumerate() {
        let query = &queries[q_index * width..(q_index + 1) * width];
        let got = bytes_array_first_within_dist(&catalog, query, 8).unwrap();
        assert_eq!(*want, got, "query {q_index}");
    }
}

#[test]
fn multi_query_best_matches_repeated_calls() {
    let width = 16;
    let catalog = make_records(width, 200, 21);
    let queries = make_records(width, 5, 22);
    let batch = bytes_array_best_many_within_dist(&catalog, &queries, width, 64).unwrap();
    for (q_index, want) in batch.iter().enumerate() {
        let query = &queries[q_index * width..(q_index + 1) * width];
        let got = bytes_array_best_within_dist(&catalog, query, 64).unwrap();
        assert_eq!(*want, got, "query {q_index}");
    }
}

#[test]
fn multi_query_all_matches_repeated_calls() {
    let width = 16;
    let catalog = make_records(width, 40, 31);
    let queries = make_records(width, 3, 32);
    let batch = bytes_array_all_many_within_dist(&catalog, &queries, width, 62).unwrap();
    for (q_index, want) in batch.iter().enumerate() {
        let query = &queries[q_index * width..(q_index + 1) * width];
        let got = bytes_array_all_within_dist(&catalog, query, 62).unwrap();
        assert_eq!(*want, got, "query {q_index}");
    }
}

#[test]
fn multi_query_empty_queries() {
    let catalog = make_records(16, 5, 1);
    let queries: Vec<u8> = Vec::new();
    assert!(bytes_array_first_many_within_dist(&catalog, &queries, 16, 4).unwrap().is_empty());
    assert!(bytes_array_best_many_within_dist(&catalog, &queries, 16, 4).unwrap().is_empty());
    assert!(bytes_array_all_many_within_dist(&catalog, &queries, 16, 4).unwrap().is_empty());
}

#[test]
fn packed_all_matches_list_and_dense_case() {
    let width = 16;
    let catalog = make_records(width, 128, 41);
    let query = &catalog[3 * width..4 * width];
    let list = bytes_array_all_within_dist(&catalog, query, 128).unwrap();
    let (dists, idxs) = bytes_array_all_within_dist_packed(&catalog, query, 128).unwrap();
    assert_eq!(dists.len(), list.len());
    assert_eq!(idxs.len(), list.len());
    for (i, (d, idx)) in list.iter().enumerate() {
        assert_eq!(dists[i] as u64, *d);
        assert_eq!(idxs[i] as usize, *idx);
    }
    assert!(list.iter().any(|(d, _)| *d == 0));
}

#[test]
fn packed_all_sparse_case() {
    let width = 16;
    let catalog = make_records(width, 200, 51);
    let query = &catalog[10 * width..11 * width];
    let (dists, idxs) = bytes_array_all_within_dist_packed(&catalog, query, 0).unwrap();
    assert!(!dists.is_empty());
    for (i, &d) in dists.iter().enumerate() {
        assert_eq!(d, 0);
        let idx = idxs[i] as usize;
        assert_eq!(&catalog[idx * width..(idx + 1) * width], query);
    }
}

#[test]
fn packed_into_matches_packed() {
    let width = 16;
    let catalog = make_records(width, 128, 61);
    let query = &catalog[5 * width..6 * width];
    let num_records = catalog.len() / width;
    let (dists, idxs) = bytes_array_all_within_dist_packed(&catalog, query, 128).unwrap();
    let mut out_d = vec![0u16; num_records];
    let mut out_i = vec![0u32; num_records];
    let n = bytes_array_all_within_dist_into(&catalog, query, 128, &mut out_d, &mut out_i).unwrap();
    assert_eq!(n, dists.len());
    assert_eq!(&out_d[..n], &dists[..]);
    assert_eq!(&out_i[..n], &idxs[..]);
}

#[test]
fn packed_into_rejects_short_buffers() {
    let width = 16;
    let catalog = make_records(width, 8, 71);
    let query = &catalog[0..width];
    let mut short_d = vec![0u16; 4];
    let mut ok_i = vec![0u32; 8];
    assert!(bytes_array_all_within_dist_into(&catalog, query, 128, &mut short_d, &mut ok_i).is_err());
    let mut ok_d = vec![0u16; 8];
    let mut short_i = vec![0u32; 4];
    assert!(bytes_array_all_within_dist_into(&catalog, query, 128, &mut ok_d, &mut short_i).is_err());
}

#[test]
fn algorithm_invariance_pairwise() {
    let cpu = CpuFeatures { arch: Arch::X86_64, sse41: true, avx2: true, avx512bw: false, avx512bitalg: false, avx512f: false, avx512vpopcntdq: false, popcnt: false };
    let width = 16;
    let a = make_records(width, 50, 81);
    let b = make_records(width, 50, 82);
    let baseline = bytes_pairwise_distances(&a, &b, width).unwrap();
    for algo in ["classic", "native"] {
        let chosen = set_algorithm(algo, &cpu).unwrap();
        let kernel = select_bytes_kernel(chosen);
        let got: Vec<u64> = (0..50)
            .map(|i| kernel.distance(&a[i * width..(i + 1) * width], &b[i * width..(i + 1) * width], -1))
            .collect();
        assert_eq!(got, baseline, "mismatch under algo {algo}");
        assert_eq!(bytes_pairwise_distances(&a, &b, width).unwrap(), baseline, "mismatch under algo {algo}");
    }
    set_algorithm("native", &cpu).unwrap();
}

#[test]
fn best_many_tiebreak_lowest_index() {
    let width = 16;
    let mut catalog = vec![0xFFu8; width * 20];
    for &idx in &[4usize, 9] {
        for byte in &mut catalog[idx * width..(idx + 1) * width] {
            *byte = 0;
        }
    }
    let query = vec![0u8; width];
    let batch = bytes_array_best_many_within_dist(&catalog, &query, width, 128).unwrap();
    assert_eq!(batch, vec![Some((0u64, 4usize))]);
}

#[test]
fn all_many_ordering_preserved() {
    let width = 16;
    let mut catalog = vec![0xFFu8; width * 12];
    for &idx in &[1usize, 5, 8, 11] {
        for byte in &mut catalog[idx * width..(idx + 1) * width] {
            *byte = 0;
        }
    }
    let query = vec![0u8; width];
    let batch = bytes_array_all_many_within_dist(&catalog, &query, width, 4).unwrap();
    assert_eq!(batch.len(), 1);
    let matches: Vec<usize> = batch[0].iter().map(|&(_, i)| i).collect();
    assert_eq!(matches, vec![1, 5, 8, 11]);
}
