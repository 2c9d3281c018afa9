use hexhamming::api::{
    bytes_array_all_within_dist, bytes_array_best_within_dist, bytes_array_first_within_dist,
};
use hexhamming::batch::{
    bytes_array_all_many_within_dist, bytes_array_best_many_within_dist,
    bytes_array_first_many_within_dist,
};
use hexhamming::catalog::Catalog;
use hexhamming::mih::MAX_PROBE_RADIUS;

fn make_records(width: usize, count: usize, seed: u64) -> Vec<u8> {
    let mut state = seed;
    let mut out = vec![0u8; width * count];
    for byte in &mut out {
        state = state.wrapping_mul(6364136223846793005).wrapping_add(1442695040888963407);
        *byte = (state >> 32) as u8;
    }
    out
}

fn flip_bits(buf: &mut [u8], count: usize, seed: u64) {
    let mut state = seed;
    for _ in 0..count {
        state = state.wrapping_mul(2862933555777941757).wrapping_add(3037000493);
        let bit = (state as usize) % (buf.len() * 8);
        buf[bit / 8] ^= 1 << (bit & 7);
    }
}

#[test]
fn indexed_paths_match_linear_at_every_probe_radius() {
    for &(width, count) in &[(2usize, 300usize), (3, 257), (8, 400), (16, 300), (32, 200)] {
        let mut records = make_records(width, count, 0x5EED ^ width as u64);
        let query = records[7 * width..8 * width].to_vec();
        for (k, target) in [3usize, 40, 41, 150, count - 1].into_iter().enumerate() {
            let mut near = query.clone();
            flip_bits(&mut near, k, 0xB17 + k as u64);
            records[target * width..(target + 1) * width].copy_from_slice(&near);
        }
        let cat = Catalog::with_index(&records, width).unwrap();
        let m = cat.index_substring_count().expect("indexable width");
        for t in 0..=MAX_PROBE_RADIUS {
            for max_dist in [t as i64 * m as i64, (t as i64 + 1) * m as i64 - 1] {
                let label = format!("width={width} t={t} max_dist={max_dist}");
                assert_eq!(
                    cat.indexed_first(&query, max_dist, t),
                    bytes_array_first_within_dist(&records, &query, max_dist).unwrap(),
                    "first {label}"
                );
                assert_eq!(
                    cat.indexed_best(&query, max_dist, t),
                    bytes_array_best_within_dist(&records, &query, max_dist).unwrap(),
                    "best {label}"
                );
                assert_eq!(
                    cat.indexed_all(&query, max_dist, t),
                    bytes_array_all_within_dist(&records, &query, max_dist).unwrap(),
                    "all {label}"
                );
            }
        }
    }
}

#[test]
fn catalog_validation_and_accessors() {
    assert!(Catalog::new(b"abc", 0).is_err());
    assert!(Catalog::new(b"abc", 2).is_err());
    let cat = Catalog::new(b"abcd", 2).unwrap();
    assert_eq!(cat.len(), 2);
    assert!(!cat.is_empty());
    assert_eq!(cat.width(), 2);
    assert_eq!(cat.records(), b"abcd");
    assert!(!cat.has_index());
}

#[test]
fn catalog_tie_breaks_match_linear() {
    let width = 8;
    let mut records = vec![0xFF; width * 8];
    records[3 * width..4 * width].fill(0);
    records[6 * width..7 * width].fill(0);
    let query = vec![0; width];
    let cat = Catalog::with_index(&records, width).unwrap();
    assert_eq!(cat.first_within(&query, 0).unwrap(), Some(3));
    assert_eq!(cat.best_within(&query, 0).unwrap(), Some((0, 3)));
    assert_eq!(cat.all_within(&query, 0).unwrap(), vec![(0, 3), (0, 6)]);
}

#[test]
fn catalog_differential_widths_and_radii() {
    for &width in &[1usize, 2, 3, 7, 8, 16, 32, 33, 64] {
        let count = if width <= 8 { 2048 } else { 768 };
        let mut records = make_records(width, count, width as u64 * 17 + 3);
        let planted = count / 3;
        let query_index = count / 2;
        let mut query = records[query_index * width..(query_index + 1) * width].to_vec();
        flip_bits(&mut query, (width * 8 / 16).max(1), 99 + width as u64);
        records[planted * width..(planted + 1) * width].copy_from_slice(&query);

        let cat_index = Catalog::with_index(&records, width).unwrap();
        let cat_linear = Catalog::new(&records, width).unwrap();
        let bits = (width * 8) as i64;
        for radius in [0, 1, 2, 4, 8, bits / 4, bits, bits + 100, -1] {
            let radius = radius.max(-1);
            let expected_first = bytes_array_first_within_dist(&records, &query, radius).unwrap();
            let expected_best = bytes_array_best_within_dist(&records, &query, radius).unwrap();
            let expected_all = bytes_array_all_within_dist(&records, &query, radius).unwrap();
            assert_eq!(
                cat_index.first_within(&query, radius).unwrap(),
                expected_first,
                "first width={width} r={radius}"
            );
            assert_eq!(
                cat_index.best_within(&query, radius).unwrap(),
                expected_best,
                "best width={width} r={radius}"
            );
            assert_eq!(
                cat_index.all_within(&query, radius).unwrap(),
                expected_all,
                "all width={width} r={radius}"
            );
            assert_eq!(cat_linear.first_within(&query, radius).unwrap(), expected_first);
            assert_eq!(cat_linear.best_within(&query, radius).unwrap(), expected_best);
            assert_eq!(cat_linear.all_within(&query, radius).unwrap(), expected_all);
        }
    }
}

#[test]
fn catalog_many_variants_match_free_functions() {
    let width = 8;
    let records = make_records(width, 2048, 123);
    let mut queries = Vec::new();
    queries.extend_from_slice(&records[10 * width..11 * width]);
    let mut near = records[99 * width..100 * width].to_vec();
    flip_bits(&mut near, 2, 77);
    queries.extend_from_slice(&near);
    queries.extend_from_slice(&make_records(width, 1, 456));
    let cat = Catalog::with_index(&records, width).unwrap();
    for radius in [0, 2, 8, 64, -1] {
        assert_eq!(
            cat.first_many_within(&queries, radius).unwrap(),
            bytes_array_first_many_within_dist(&records, &queries, width, radius).unwrap()
        );
        assert_eq!(
            cat.best_many_within(&queries, radius).unwrap(),
            bytes_array_best_many_within_dist(&records, &queries, width, radius).unwrap()
        );
        assert_eq!(
            cat.all_many_within(&queries, radius).unwrap(),
            bytes_array_all_many_within_dist(&records, &queries, width, radius).unwrap()
        );
    }
}
