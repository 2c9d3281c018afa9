use hexhamming::api::{bytes_array_all_within_dist, bytes_array_best_within_dist, bytes_array_first_within_dist};
use hexhamming::bits::{enumerate_neighbors, extract_substring};
use hexhamming::catalog::Catalog;
use hexhamming::mih::{ball_size_exec, sort_dedup_by_index, BucketTable, MihIndex, MihParams};

#[test]
fn substrings_read_msb_first() {
    let code = [0b1010_1100u8, 0b0101_0011];
    assert_eq!(extract_substring(&code, 2, 5), 0b10110);
    assert_eq!(extract_substring(&code, 6, 6), 0b000101);
    assert_eq!(extract_substring(&code, 0, 16), 0xAC53);
    assert_eq!(extract_substring(&code, 15, 1), 1);
}

#[test]
fn neighbours_in_flip_order() {
    assert_eq!(enumerate_neighbors(0b0101, 4, 0), vec![0b0101]);
    assert_eq!(enumerate_neighbors(0b0101, 4, 1), vec![0b0101, 0b0100, 0b0111, 0b0001, 0b1101]);
    let two = enumerate_neighbors(0b0101, 4, 2);
    assert_eq!(two.len(), 11);
    for key in 0u32..16 {
        let within = (key ^ 0b0101).count_ones() <= 2;
        assert_eq!(two.contains(&key), within, "key={key}");
    }
    assert_eq!(enumerate_neighbors(3, 22, 4).len() as u64, ball_size_exec(22, 4));
}

#[test]
fn ball_sizes() {
    assert_eq!(ball_size_exec(22, 4), 1 + 22 + 231 + 1540 + 7315);
    assert_eq!(ball_size_exec(3, 4), 8);
    assert_eq!(ball_size_exec(10, 0), 1);
}

#[test]
fn planner_cuts_balanced_substrings() {
    let p = MihParams::plan(64, 1000).unwrap();
    assert_eq!(p.m, 6);
    assert_eq!(p.s_bits, vec![11, 11, 11, 11, 10, 10]);
    assert_eq!(p.s_off, vec![0, 11, 22, 33, 44, 54]);
    assert!(MihParams::plan(0, 10).is_none());
    assert!(MihParams::plan(64 * 22 + 1, 10).is_none());
    let q = MihParams::with_m(10, 3).unwrap();
    assert_eq!(q.s_bits, vec![4, 3, 3]);
    assert!(MihParams::with_m(100, 2).is_none());
}

#[test]
fn sort_dedup_keeps_one_entry_per_index() {
    let v = vec![(3u64, 5usize), (1, 2), (3, 5), (0, 0), (1, 2)];
    assert_eq!(sort_dedup_by_index(&v), vec![(0, 0), (1, 2), (3, 5)]);
    assert_eq!(sort_dedup_by_index(&[]), Vec::<(u64, usize)>::new());
}

#[test]
fn index_build_limits() {
    assert!(MihIndex::build(&[], 8).is_none());
    assert!(MihIndex::build(&vec![0u8; 200 * 3], 200).is_none());
    assert!(MihIndex::build(&vec![0u8; 8 * 3], 8).is_some());
    let cat = Catalog::with_index(&vec![0u8; 200 * 3], 200).unwrap();
    assert!(!cat.has_index());
    assert_eq!(cat.index_memory_overhead_bytes(), 0);
}

#[test]
fn index_memory_overhead_formula() {
    let records: Vec<u8> = (0..400 * 8).map(|i| (i * 7 + 3) as u8).collect();
    let cat = Catalog::with_index(&records, 8).unwrap();
    assert!(cat.has_index());
    assert_eq!(cat.index_substring_count(), Some(6));
    // 4 * ((2^s + 1) + N) per table, for s = 11, 11, 11, 11, 10, 10.
    assert_eq!(cat.index_memory_overhead_bytes(), 4 * (4 * (2048 + 1 + 400) + 2 * (1024 + 1 + 400)));
}

#[test]
fn query_cost_estimates() {
    let records: Vec<u8> = (0..400 * 8).map(|i| (i * 7 + 3) as u8).collect();
    let linear = Catalog::new(&records, 8).unwrap();
    // max(400 * 0.11 ns, 3200 * 0.0133 ns) = 44 ns, in units of 1e-4 ns.
    assert_eq!(linear.estimated_query_cost(0), 440_000);
    assert_eq!(linear.estimated_query_cost(-1), 440_000);
    let indexed = Catalog::with_index(&records, 8).unwrap();
    // An unlimited threshold always scans linearly.
    assert_eq!(indexed.estimated_query_cost(-1), 440_000);
    // Probing 400 records never beats the 50 ns query overhead, so the
    // linear estimate is reported.
    assert_eq!(indexed.estimated_query_cost(0), 440_000);

    // With 100 000 records the index pays at radius 0: the overhead plus
    // one probe per table, far below the linear estimate.
    let big: Vec<u8> = (0..100_000u32 * 8).map(|i| (i.wrapping_mul(2654435761) >> 13) as u8).collect();
    let big_linear = Catalog::new(&big, 8).unwrap();
    let big_indexed = Catalog::with_index(&big, 8).unwrap();
    let m = big_indexed.index_substring_count().unwrap() as u128;
    let scan = big_linear.estimated_query_cost(0);
    let cost = big_indexed.estimated_query_cost(0);
    assert!(cost >= 500_000 + m * 15_000, "cost={cost}");
    assert!(cost < scan, "cost={cost} scan={scan}");
}

#[test]
fn indexed_queries_agree_with_linear_scans_on_duplicates() {
    let width = 4;
    let mut records = vec![0x55u8; width * 64];
    for &i in &[5usize, 9, 9, 40] {
        records[i * width..(i + 1) * width].fill(0);
    }
    records[20 * width] = 1;
    let query = vec![0u8; width];
    let cat = Catalog::with_index(&records, width).unwrap();
    let m = cat.index_substring_count().unwrap() as i64;
    for t in 0..=4u32 {
        let max_dist = t as i64 * m;
        assert_eq!(cat.indexed_first(&query, max_dist, t), bytes_array_first_within_dist(&records, &query, max_dist).unwrap());
        assert_eq!(cat.indexed_best(&query, max_dist, t), bytes_array_best_within_dist(&records, &query, max_dist).unwrap());
        assert_eq!(cat.indexed_all(&query, max_dist, t), bytes_array_all_within_dist(&records, &query, max_dist).unwrap());
    }
}

#[test]
fn neighbors_of_wide_keys_are_listed_once_in_order() {
    let key = 0x8000_0001u32;
    let out = enumerate_neighbors(key, 32, 2);
    assert_eq!(out.len(), 1 + 32 + 32 * 31 / 2);
    let mut sorted = out.clone();
    sorted.sort_unstable();
    sorted.dedup();
    assert_eq!(sorted.len(), out.len());
    assert_eq!(out[0], key);
    assert_eq!(out[1], key ^ 1);
    assert_eq!(out[32], key ^ (1 << 31));
    assert_eq!(out[33], key ^ 0b11);
    assert_eq!(out[out.len() - 1], key ^ (1 << 30) ^ (1 << 31));
    assert_eq!(enumerate_neighbors(0, 0, 4), vec![0]);
    let four = enumerate_neighbors(0, 5, 4);
    assert_eq!(four.len(), 1 + 5 + 10 + 10 + 5);
}

#[test]
fn bucket_table_of_no_records_is_empty() {
    let table = BucketTable::build(&[], 4, 3, 5);
    assert_eq!(table.offsets, vec![0u32; 9]);
    assert!(table.records.is_empty());
    for key in 0..8u32 {
        assert!(table.bucket(key).is_empty());
    }
}

#[test]
fn bucket_table_sorts_records_stably_by_key() {
    // 2-byte records; the key is the top 2 bits of the first byte.
    let records = [0xC0u8, 0, 0x00, 0, 0x40, 0, 0xC0, 1, 0x00, 1];
    let table = BucketTable::build(&records, 2, 2, 0);
    assert_eq!(table.offsets, vec![0, 2, 3, 3, 5]);
    assert_eq!(table.records, vec![1, 4, 2, 0, 3]);
    assert_eq!(table.bucket(3), &[0, 3]);
    assert!(table.bucket(2).is_empty());
}
