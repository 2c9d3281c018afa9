use hexhamming::checks::{
    check_bytes_arrays_all_many_within_dist, check_bytes_arrays_all_within_dist,
    check_bytes_arrays_best_many_within_dist, check_bytes_arrays_best_within_dist,
    check_bytes_arrays_first_many_within_dist, check_bytes_arrays_first_within_dist,
    check_bytes_within_dist, check_hexstrings_within_dist,
};

#[test]
fn hexstrings_within_dist_examples() {
    assert_eq!(check_hexstrings_within_dist("ffff", "fffe", 2), Ok(true));
    assert_eq!(check_hexstrings_within_dist("ffff", "0000", 15), Ok(false));
    assert_eq!(check_hexstrings_within_dist("ffff", "0000", 16), Ok(true));
    assert_eq!(check_hexstrings_within_dist("ff", "f", 1), Err("strings are NOT the same length"));
    assert_eq!(check_hexstrings_within_dist("ff", "00", -1), Err("`max_dist` must be >0"));
}

#[test]
fn hexstrings_within_dist_shortcuts_skip_validation() {
    // Equal strings, and cutoffs no pair of strings can exceed, answer
    // without reading the characters.
    assert_eq!(check_hexstrings_within_dist("zz", "zz", 0), Ok(true));
    assert_eq!(check_hexstrings_within_dist("zz", "00", 8), Ok(true));
    assert_eq!(check_hexstrings_within_dist("zz", "00", 7), Err("hex string contains invalid char"));
}

#[test]
fn hexstrings_within_dist_block_scan_order() {
    // Short strings are read four characters at a time: an invalid
    // character in the first block fails even when the cutoff is exceeded
    // inside it.
    assert_eq!(check_hexstrings_within_dist("ffzf", "0000", 3), Err("hex string contains invalid char"));
    // The cutoff is exceeded in the first block, before the invalid second block.
    assert_eq!(check_hexstrings_within_dist("ffff000z", "00000000", 3), Ok(false));
    // Long strings go character by character.
    let a = "f".repeat(64) + "z";
    let b = "0".repeat(65);
    assert_eq!(check_hexstrings_within_dist(&a, &b, 3), Ok(false));
    let c = "z".to_string() + &"f".repeat(64);
    assert_eq!(check_hexstrings_within_dist(&c, &b, 3), Err("hex string contains invalid char"));
    assert_eq!(check_hexstrings_within_dist(&"a".repeat(80), &"b".repeat(80), 160), Ok(true));
}

#[test]
fn bytes_within_dist_checks() {
    assert_eq!(check_bytes_within_dist(b"\xff", b"\xfe", 1), Ok(true));
    assert_eq!(check_bytes_within_dist(b"\xff", b"\x00", 7), Ok(false));
    assert_eq!(check_bytes_within_dist(b"", b"\x00", 7), Err("array size must be >0"));
    assert_eq!(check_bytes_within_dist(b"\xff", b"\x00", -1), Err("`max_dist` must be >=0"));
    assert_eq!(check_bytes_within_dist(b"\xff", b"\x00\x00", 1), Err("array sizes need to be the same"));
}

#[test]
fn array_checks_encode_missing_matches() {
    let big = [0xAAu8, 0xFE, 0xFF, 0x00];
    let small = [0xFFu8];
    assert_eq!(check_bytes_arrays_first_within_dist(&big, &small, 1), Ok(1));
    assert_eq!(check_bytes_arrays_first_within_dist(&big, &small, 0), Ok(2));
    assert_eq!(check_bytes_arrays_first_within_dist(&[0x00], &small, 7), Ok(-1));
    assert_eq!(check_bytes_arrays_best_within_dist(&big, &small, 8), Ok((0, 2)));
    assert_eq!(check_bytes_arrays_best_within_dist(&[0x00], &small, 7), Ok((-1, -1)));
    assert_eq!(check_bytes_arrays_all_within_dist(&big, &small, 4), Ok(vec![(4, 0), (1, 1), (0, 2)]));
}

#[test]
fn array_checks_errors() {
    assert_eq!(check_bytes_arrays_first_within_dist(b"ab", b"", 1), Err("`elem_to_compare` size must be >0"));
    assert_eq!(check_bytes_arrays_first_within_dist(b"ab", b"a", -1), Err("`max_dist` must be >=0"));
    assert_eq!(
        check_bytes_arrays_best_within_dist(b"abc", b"ab", 1),
        Err("`array_of_elems` size must be multiplier of `elem_to_compare`")
    );
    assert!(check_bytes_arrays_all_within_dist(b"abc", b"ab", 1).is_err());
}

#[test]
fn many_checks() {
    let catalog = [0x00u8, 0x00, 0xFF, 0xFF, 0x0F, 0x00];
    let queries = [0xFFu8, 0xFF, 0xF0, 0xF0];
    assert_eq!(check_bytes_arrays_first_many_within_dist(&catalog, &queries, 2, 0), Ok(vec![1, -1]));
    assert_eq!(check_bytes_arrays_best_many_within_dist(&catalog, &queries, 2, 8), Ok(vec![(0, 1), (8, 0)]));
    assert_eq!(
        check_bytes_arrays_all_many_within_dist(&catalog, &queries, 2, 8),
        Ok(vec![vec![(0, 1)], vec![(8, 0), (8, 1)]])
    );
    assert_eq!(check_bytes_arrays_first_many_within_dist(&catalog, &queries, 2, -1), Err("`max_dist` must be >=0"));
    assert_eq!(check_bytes_arrays_first_many_within_dist(&catalog, &queries, 0, 1), Err("`query_width` must be >0"));
    assert_eq!(
        check_bytes_arrays_best_many_within_dist(&catalog, &queries, 4, 1),
        Err("catalog length must be a multiple of `query_width`")
    );
    assert_eq!(
        check_bytes_arrays_all_many_within_dist(&catalog, &queries[..3], 2, 1),
        Err("queries length must be a multiple of `query_width`")
    );
}
