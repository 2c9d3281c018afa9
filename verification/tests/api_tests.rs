use hexhamming::algo::{set_algorithm, Algorithm, Arch, CpuFeatures};
use hexhamming::api::{
    bytes_array_all_within_dist, bytes_array_best_within_dist, bytes_array_first_within_dist,
    bytes_hamming_distance, bytes_within_dist, hamming_distance_bytes_dispatch,
    hamming_distance_string_dispatch_with_max, hex_hamming_distance, select_array_scanner_for_width,
    select_bytes_kernel, Scan, SERIAL_PREFIX_MAX_BYTES, SERIAL_PREFIX_MIN_BYTES,
};

fn x86_cpu() -> CpuFeatures {
    CpuFeatures { arch: Arch::X86_64, sse41: true, avx2: true, avx512bw: false, avx512bitalg: false, avx512f: false, avx512vpopcntdq: false, popcnt: false }
}

fn make_batch(
    elem_size: usize,
    num_elements: usize,
    fill_byte: u8,
    match_indices: &[usize],
    match_bytes: &[u8],
) -> Vec<u8> {
    let mut big = vec![fill_byte; elem_size * num_elements];
    for &idx in match_indices {
        big[idx * elem_size..(idx + 1) * elem_size].copy_from_slice(match_bytes);
    }
    big
}

fn pseudo_random(len: usize, seed: u64) -> Vec<u8> {
    let mut state = seed;
    (0..len)
        .map(|_| {
            state = state.wrapping_add(0x9E37_79B9_7F4A_7C15);
            let mut v = state;
            v = (v ^ (v >> 30)).wrapping_mul(0xBF58_476D_1CE4_E5B9);
            v = (v ^ (v >> 27)).wrapping_mul(0x94D0_49BB_1331_11EB);
            ((v ^ (v >> 31)) >> 56) as u8
        })
        .collect()
}

fn expected_byte_distance(a: &[u8], b: &[u8]) -> u64 {
    a.iter().zip(b.iter()).map(|(x, y)| (x ^ y).count_ones() as u64).sum()
}

#[test]
fn set_algorithm_classic_and_native() {
    let cpu = x86_cpu();
    set_algorithm("classic", &cpu).unwrap();
    assert_eq!(hex_hamming_distance("deadbeef", "00000000").unwrap(), 24);
    set_algorithm("native", &cpu).unwrap();
    assert_eq!(hex_hamming_distance("deadbeef", "00000000").unwrap(), 24);
}

#[test]
fn set_algorithm_unknown() {
    assert!(set_algorithm("bogus", &x86_cpu()).is_err());
}

#[test]
fn bytes_within_dist_basic() {
    assert_eq!(bytes_within_dist(b"\xff", b"\xfe", 2).unwrap(), true);
    assert_eq!(bytes_within_dist(b"\xff", b"\x00", 2).unwrap(), false);
}

#[test]
fn bytes_within_dist_errors() {
    assert!(bytes_within_dist(b"", b"\xff", 1).is_err());
    assert!(bytes_within_dist(b"\xff", b"\xff\x00", 1).is_err());
}

#[test]
fn array_first_within_dist_test() {
    let big = b"\xaa\xbb\xcc\xff";
    let small = b"\xff";
    assert_eq!(bytes_array_first_within_dist(big, small, 4).unwrap(), Some(0));
    assert_eq!(bytes_array_first_within_dist(big, small, 0).unwrap(), Some(3));
    assert_eq!(bytes_array_first_within_dist(b"\x00", b"\xff", 1).unwrap(), None);
}

#[test]
fn array_best_within_dist() {
    let big = b"\xaa\xfe\xff";
    let small = b"\xff";
    let result = bytes_array_best_within_dist(big, small, 8).unwrap();
    assert_eq!(result, Some((0, 2)));
}

#[test]
fn array_all_within_dist() {
    let big = b"\xaa\xfe\xff";
    let small = b"\xff";
    let result = bytes_array_all_within_dist(big, small, 8).unwrap();
    assert_eq!(result.len(), 3);
    assert_eq!(result[2], (0, 2));
}

#[test]
fn array_errors() {
    assert!(bytes_array_first_within_dist(b"\xff", b"", 1).is_err());
    assert!(bytes_array_first_within_dist(b"\xaa\xbb\xcc", b"\xff\xff", 1).is_err());
}

#[test]
fn split_scans_match_serial_scans() {
    for &width in &[1usize, 8, 16, 20, 32, 64] {
        let past_prefix = SERIAL_PREFIX_MAX_BYTES / width + 5000;
        for &count in &[33usize, 257, 4096, 20_000, past_prefix] {
            let query = pseudo_random(width, 0xA0 + width as u64);
            let mut records = pseudo_random(width * count, 0xB0 + (width * count) as u64);
            let mut near = query.clone();
            near[0] ^= 1;
            let prefix_end = (SERIAL_PREFIX_MIN_BYTES / width).min(count - 1);
            for (k, &at) in [count / 5, prefix_end, count / 2, count - 1].iter().enumerate() {
                let record = if k < 2 { &near } else { &query };
                records[at * width..(at + 1) * width].copy_from_slice(record);
            }
            for &max_dist in &[-1i64, 0, 1, 3, width as i64 * 4, width as i64 * 8] {
                let scan = Scan::new(&query, max_dist);
                let label = format!("width={width} count={count} max_dist={max_dist}");
                assert_eq!(scan.first_split(&records, 0, 8), scan.first(&records), "first {label}");
                assert_eq!(scan.best_split(&records, 0, 8), scan.best(&records), "best {label}");
                assert_eq!(scan.all_split(&records, 0, 8), scan.all(&records), "all {label}");
            }
        }
    }
}

#[test]
fn first_within_dist_small_batch() {
    let elem_size = 4;
    let n = 100;
    let needle = vec![0x00u8; elem_size];
    let big = make_batch(elem_size, n, 0xFF, &[50], &needle);
    assert_eq!(bytes_array_first_within_dist(&big, &needle, 0).unwrap(), Some(50));
}

#[test]
fn first_within_dist_large_batch() {
    let elem_size = 16;
    let n = 100_000;
    let needle = vec![0x00u8; elem_size];
    let big = make_batch(elem_size, n, 0xFF, &[50], &needle);
    assert_eq!(bytes_array_first_within_dist(&big, &needle, 0).unwrap(), Some(50));
}

#[test]
fn first_within_dist_returns_lowest_index() {
    let elem_size = 16;
    let n = 100_000;
    let needle = vec![0x00u8; elem_size];
    let big = make_batch(elem_size, n, 0xFF, &[50, 500, 5000, 50000], &needle);
    assert_eq!(bytes_array_first_within_dist(&big, &needle, 0).unwrap(), Some(50));
}

#[test]
fn best_within_dist_small_batch() {
    let elem_size = 4;
    let n = 100;
    let needle = vec![0x00u8; elem_size];
    let mut big = vec![0xFFu8; elem_size * n];
    big[60 * elem_size..(60 + 1) * elem_size].copy_from_slice(&needle);
    let mut one_bit = vec![0x00u8; elem_size];
    one_bit[0] = 0x01;
    big[30 * elem_size..(30 + 1) * elem_size].copy_from_slice(&one_bit);
    let result = bytes_array_best_within_dist(&big, &needle, 100).unwrap();
    assert_eq!(result, Some((0, 60)));
}

#[test]
fn best_within_dist_large_batch() {
    let elem_size = 16;
    let n = 100_000;
    let needle = vec![0x00u8; elem_size];
    let mut big = vec![0xFFu8; elem_size * n];
    big[75000 * elem_size..(75000 + 1) * elem_size].copy_from_slice(&needle);
    let mut one_bit = vec![0x00u8; elem_size];
    one_bit[0] = 0x01;
    big[25000 * elem_size..(25000 + 1) * elem_size].copy_from_slice(&one_bit);
    let result = bytes_array_best_within_dist(&big, &needle, 200).unwrap();
    assert_eq!(result, Some((0, 75000)));
}

#[test]
fn best_within_dist_tiebreak_lowest_index() {
    let elem_size = 16;
    let n = 100_000;
    let needle = vec![0x00u8; elem_size];
    let mut big = vec![0xFFu8; elem_size * n];
    big[300 * elem_size..(300 + 1) * elem_size].copy_from_slice(&needle);
    big[700 * elem_size..(700 + 1) * elem_size].copy_from_slice(&needle);
    let result = bytes_array_best_within_dist(&big, &needle, 200).unwrap();
    assert_eq!(result, Some((0, 300)));
}

#[test]
fn best_within_dist_tiebreak_lowest_index_small() {
    let elem_size = 4;
    let n = 10;
    let needle = vec![0x00u8; elem_size];
    let mut big = vec![0xFFu8; elem_size * n];
    big[3 * elem_size..(3 + 1) * elem_size].copy_from_slice(&needle);
    big[7 * elem_size..(7 + 1) * elem_size].copy_from_slice(&needle);
    let result = bytes_array_best_within_dist(&big, &needle, 200).unwrap();
    assert_eq!(result, Some((0, 3)));
}

#[test]
fn all_within_dist_small_batch() {
    let elem_size = 4;
    let n = 100;
    let needle = vec![0x00u8; elem_size];
    let big = make_batch(elem_size, n, 0xFF, &[5, 20, 50, 99], &needle);
    let result = bytes_array_all_within_dist(&big, &needle, 0).unwrap();
    let indices: Vec<usize> = result.iter().map(|&(_, i)| i).collect();
    assert_eq!(indices, vec![5, 20, 50, 99]);
}

#[test]
fn all_within_dist_large_batch_ordering() {
    let elem_size = 16;
    let n = 100_000;
    let needle = vec![0x00u8; elem_size];
    let match_at = vec![5, 100, 200, 500, 50000, 99999];
    let big = make_batch(elem_size, n, 0xFF, &match_at, &needle);
    let result = bytes_array_all_within_dist(&big, &needle, 0).unwrap();
    let indices: Vec<usize> = result.iter().map(|&(_, i)| i).collect();
    assert_eq!(indices, match_at);
}

#[test]
fn serial_and_parallel_produce_identical_results_first() {
    let elem_size = 8;
    let needle = vec![0x00u8; elem_size];
    let match_at = &[10, 50, 100];
    let big_small = make_batch(elem_size, 200, 0xFF, match_at, &needle);
    let serial = bytes_array_first_within_dist(&big_small, &needle, 0).unwrap();
    let big_large = make_batch(elem_size, 100_000, 0xFF, match_at, &needle);
    let parallel = bytes_array_first_within_dist(&big_large, &needle, 0).unwrap();
    assert_eq!(serial, parallel);
}

#[test]
fn serial_and_parallel_produce_identical_results_best() {
    let elem_size = 8;
    let needle = vec![0x00u8; elem_size];
    let mut small_big = vec![0xFFu8; elem_size * 200];
    let mut large_big = vec![0xFFu8; elem_size * 100_000];
    let mut one_bit = vec![0x00u8; elem_size];
    one_bit[0] = 0x01;
    for big in [&mut small_big, &mut large_big] {
        big[30 * elem_size..(30 + 1) * elem_size].copy_from_slice(&one_bit);
        big[50 * elem_size..(50 + 1) * elem_size].copy_from_slice(&needle);
    }
    let serial = bytes_array_best_within_dist(&small_big, &needle, 200).unwrap();
    let parallel = bytes_array_best_within_dist(&large_big, &needle, 200).unwrap();
    assert_eq!(serial, parallel);
}

#[test]
fn serial_and_parallel_produce_identical_results_all() {
    let elem_size = 8;
    let needle = vec![0x00u8; elem_size];
    let match_at = &[5, 20, 50, 100];
    let small_big = make_batch(elem_size, 200, 0xFF, match_at, &needle);
    let large_big = make_batch(elem_size, 100_000, 0xFF, match_at, &needle);
    let serial = bytes_array_all_within_dist(&small_big, &needle, 0).unwrap();
    let parallel = bytes_array_all_within_dist(&large_big, &needle, 0).unwrap();
    assert_eq!(serial.len(), parallel.len());
    for (s, p) in serial.iter().zip(parallel.iter()) {
        assert_eq!(s, p);
    }
}

#[test]
fn test_basic_hamming() {
    assert_eq!(hex_hamming_distance("deadbeef", "00000000").unwrap(), 24);
    assert_eq!(hex_hamming_distance("ffff", "0000").unwrap(), 16);
    assert_eq!(hex_hamming_distance("0000", "0000").unwrap(), 0);
    assert_eq!(hex_hamming_distance("f", "0").unwrap(), 4);
}

#[test]
fn test_mixed_case() {
    assert_eq!(hex_hamming_distance("DEADBEEF", "deadbeef").unwrap(), 0);
    assert_eq!(hex_hamming_distance("AbCdEf", "abcdef").unwrap(), 0);
    assert_eq!(hex_hamming_distance("aAbBcC", "AABBCC").unwrap(), 0);
}

#[test]
fn test_long_strings_32plus() {
    let a32 = "f".repeat(32);
    let b32 = "0".repeat(32);
    assert_eq!(hex_hamming_distance(&a32, &b32).unwrap(), 128);
    let a64 = "f".repeat(64);
    let b64 = "0".repeat(64);
    assert_eq!(hex_hamming_distance(&a64, &b64).unwrap(), 256);
    let a128 = "f".repeat(128);
    let b128 = "0".repeat(128);
    assert_eq!(hex_hamming_distance(&a128, &b128).unwrap(), 512);
    let a254 = "f".repeat(254);
    let b254 = "0".repeat(254);
    assert_eq!(hex_hamming_distance(&a254, &b254).unwrap(), 1016);
}

#[test]
fn test_very_long_strings_no_overflow() {
    for &n in &[4032usize, 4096, 5000, 8192, 10_000] {
        let a = "f".repeat(n);
        let b = "0".repeat(n);
        assert_eq!(
            hex_hamming_distance(&a, &b).unwrap(),
            4 * n as u64,
            "wrong distance for {n}-char all-f vs all-0"
        );
        let c = "f0".repeat(n / 2);
        let d = "00".repeat(n / 2);
        assert_eq!(
            hex_hamming_distance(&c, &d).unwrap(),
            4 * (n as u64 / 2),
            "wrong distance for {n}-char f0 vs 00"
        );
    }
}

#[test]
fn test_avx512_string_long_no_overflow() {
    // The AVX-512 backend is only chosen where the processor has it; the
    // distances it must give are those of every backend.
    let cpu = CpuFeatures { arch: Arch::X86_64, sse41: true, avx2: true, avx512bw: true, avx512bitalg: true, avx512f: false, avx512vpopcntdq: false, popcnt: false };
    if set_algorithm("avx512", &cpu).is_err() {
        return;
    }
    for &n in &[4096usize, 8192, 12_000] {
        let a = "f".repeat(n);
        let b = "0".repeat(n);
        assert_eq!(hex_hamming_distance(&a, &b).unwrap(), 4 * n as u64);
    }
    set_algorithm("native", &cpu).ok();
}

#[test]
fn test_long_mixed_content() {
    let a = "0123456789abcdef".repeat(8);
    let b = "fedcba9876543210".repeat(8);
    let result = hex_hamming_distance(&a, &b).unwrap();
    assert_eq!(result, 64 * 8);
    let a_mixed = "AaBbCcDdEeFf0011".repeat(4);
    let b_mixed = "aAbBcCdDeEfF0011".repeat(4);
    assert_eq!(hex_hamming_distance(&a_mixed, &b_mixed).unwrap(), 0);
}

#[test]
fn test_invalid_chars() {
    assert!(hex_hamming_distance("zz", "00").is_err());
    assert!(hex_hamming_distance("gg", "00").is_err());
    assert!(hex_hamming_distance(
        "@@@@@@@@@@@@@@@@@@@@@@@@@@@@@@@@@@",
        "00000000000000000000000000000000ff"
    )
    .is_err());
    assert!(hex_hamming_distance(
        "``````````````````````````````````",
        "00000000000000000000000000000000ff"
    )
    .is_err());
}

#[test]
fn test_length_mismatch() {
    assert!(hex_hamming_distance("ff", "f").is_err());
}

#[test]
fn test_empty() {
    assert_eq!(hex_hamming_distance("", "").unwrap(), 0);
}

#[test]
fn test_bytes_basic() {
    assert_eq!(bytes_hamming_distance(b"\xff", b"\x00").unwrap(), 8);
    assert_eq!(bytes_hamming_distance(b"\xde\xad\xbe\xef", b"\x00\x00\x00\x00").unwrap(), 24);
}

#[test]
fn test_dispatch_returns_actual_distance_various_lengths() {
    let lengths: &[usize] = &[1, 7, 8, 15, 16, 31, 32, 33, 63, 64, 127, 128, 256, 1024];
    for &len in lengths {
        let a = vec![0xFFu8; len];
        let b = vec![0x00u8; len];
        let expected = len as u64 * 8;
        let got = bytes_hamming_distance(&a, &b).unwrap();
        assert_eq!(got, expected, "bytes distance mismatch for len={}: got {} expected {}", len, got, expected);
        let got_unlimited = hamming_distance_bytes_dispatch(&a, &b, -1);
        assert_eq!(got_unlimited, expected, "dispatch(-1) mismatch for len={}", len);
        let got_within = hamming_distance_bytes_dispatch(&a, &b, (expected + 10) as i64);
        assert_eq!(got_within, expected, "dispatch(within) mismatch for len={}", len);
    }
}

#[test]
fn test_dispatch_returns_sentinel_when_exceeded() {
    let lengths: &[usize] = &[1, 8, 16, 32, 64, 128, 256, 1024];
    for &len in lengths {
        let a = vec![0xFFu8; len];
        let b = vec![0x00u8; len];
        let got = hamming_distance_bytes_dispatch(&a, &b, 0);
        assert_eq!(got, u64::MAX, "expected u64::MAX for len={} with max_dist=0, got {}", len, got);
        let got1 = hamming_distance_bytes_dispatch(&a, &b, 1);
        assert_eq!(got1, u64::MAX, "expected u64::MAX for len={} with max_dist=1, got {}", len, got1);
    }
}

#[test]
fn test_dispatch_partial_diff_various_lengths() {
    let lengths: &[usize] = &[1, 8, 16, 32, 64, 128, 256, 1024];
    for &len in lengths {
        let a = vec![0x00u8; len];
        let mut b = vec![0x00u8; len];
        b[0] = 0xFF;
        let expected = 8u64;
        let got = bytes_hamming_distance(&a, &b).unwrap();
        assert_eq!(got, expected, "partial diff mismatch for len={}: got {} expected {}", len, got, expected);
    }
}

#[test]
fn test_dispatch_agrees_with_oracle() {
    let lengths: &[usize] = &[7, 15, 31, 33, 63, 127, 255, 512];
    for &len in lengths {
        let a: Vec<u8> = (0..len).map(|i| (i * 37 + 13) as u8).collect();
        let b: Vec<u8> = (0..len).map(|i| (i * 53 + 97) as u8).collect();
        let expected = expected_byte_distance(&a, &b);
        let got = bytes_hamming_distance(&a, &b).unwrap();
        assert_eq!(got, expected, "oracle mismatch for len={}: got {} expected {}", len, got, expected);
    }
}

#[test]
fn test_bytes_within_dist_api() {
    let a = b"\xde\xad\xbe\xef";
    let b = b"\x00\x00\x00\x00";
    assert!(bytes_within_dist(a, b, 24).unwrap());
    assert!(bytes_within_dist(a, b, 30).unwrap());
    assert!(!bytes_within_dist(a, b, 2).unwrap());
    assert!(!bytes_within_dist(a, b, 0).unwrap());
}

#[test]
fn test_bytes_array_first_within_dist_api() {
    let big = [
        0x00u8, 0x00, 0x00, 0x00, //
        0xDE, 0xAD, 0xBE, 0xEF, //
        0xFF, 0xFF, 0xFF, 0xFF,
    ];
    let needle = [0x00u8, 0x00, 0x00, 0x00];
    assert_eq!(bytes_array_first_within_dist(&big, &needle, 5).unwrap(), Some(0));
    assert_eq!(bytes_array_first_within_dist(&big, &needle, 30).unwrap(), Some(0));
    let needle2 = [0xFFu8, 0xFF, 0xFF, 0xFF];
    assert_eq!(bytes_array_first_within_dist(&big, &needle2, 5).unwrap(), Some(2));
}

#[test]
fn test_bytes_array_best_within_dist_api() {
    let big = [
        0xFFu8, 0xFF, 0xFF, 0xFF, //
        0x01, 0x00, 0x00, 0x00, //
        0x00, 0x00, 0x00, 0x00,
    ];
    let needle = [0x00u8, 0x00, 0x00, 0x00];
    let result = bytes_array_best_within_dist(&big, &needle, 40).unwrap();
    assert_eq!(result, Some((0, 2)));
    let result2 = bytes_array_best_within_dist(&big, &needle, 2).unwrap();
    assert_eq!(result2, Some((0, 2)));
    let result3 = bytes_array_best_within_dist(&big, &needle, 0).unwrap();
    assert_eq!(result3, Some((0, 2)));
}

#[test]
fn test_bytes_array_all_within_dist_api() {
    let big = [
        0x00u8, 0x00, 0x00, 0x00, //
        0x01, 0x00, 0x00, 0x00, //
        0xFF, 0xFF, 0xFF, 0xFF,
    ];
    let needle = [0x00u8, 0x00, 0x00, 0x00];
    let results = bytes_array_all_within_dist(&big, &needle, 5).unwrap();
    assert_eq!(results.len(), 2);
    assert_eq!(results[0], (0, 0));
    assert_eq!(results[1], (1, 1));
    let results_all = bytes_array_all_within_dist(&big, &needle, 40).unwrap();
    assert_eq!(results_all.len(), 3);
    assert_eq!(results_all[2], (32, 2));
}

#[test]
fn test_hex_string_various_lengths() {
    let lengths: &[usize] = &[1, 7, 8, 15, 16, 31, 32, 33, 63, 64, 127, 128, 256, 1024];
    for &len in lengths {
        let a = "f".repeat(len);
        let b = "0".repeat(len);
        let expected = len as u64 * 4;
        let got = hex_hamming_distance(&a, &b).unwrap();
        assert_eq!(got, expected, "hex distance mismatch for len={}: got {} expected {}", len, got, expected);
    }
}

#[test]
fn test_hex_string_mixed_pattern_various_lengths() {
    let lengths: &[usize] = &[2, 16, 32, 64, 128, 254, 256, 512, 1024];
    for &len in lengths {
        let len_even = len & !1;
        let a = "a5".repeat(len_even / 2);
        let b = "00".repeat(len_even / 2);
        let expected = (len_even / 2) as u64 * 4;
        let got = hex_hamming_distance(&a, &b).unwrap();
        assert_eq!(got, expected, "hex mixed pattern mismatch for len={}: got {} expected {}", len_even, got, expected);
    }
}

#[test]
fn test_string_dispatch_with_max_agrees_with_full() {
    let lengths: &[usize] = &[64, 96, 128, 256, 1024];
    for &len in lengths {
        let a = "f".repeat(len);
        let b = "0".repeat(len);
        let full = hex_hamming_distance(&a, &b).unwrap();
        let with_max = hamming_distance_string_dispatch_with_max(a.as_bytes(), b.as_bytes(), u64::MAX).unwrap();
        assert_eq!(full, with_max, "dispatch_with_max mismatch at len={}: full={} with_max={}", len, full, with_max);
    }
}

#[test]
fn test_string_dispatch_with_max_returns_sentinel() {
    let lengths: &[usize] = &[64, 96, 128, 256, 1024];
    for &len in lengths {
        let a = "f".repeat(len);
        let b = "0".repeat(len);
        let result = hamming_distance_string_dispatch_with_max(a.as_bytes(), b.as_bytes(), 1).unwrap();
        assert_eq!(result, u64::MAX, "expected sentinel for len={}, got {}", len, result);
    }
}

#[test]
fn test_string_dispatch_with_max_returns_actual() {
    let lengths: &[usize] = &[64, 96, 128, 256, 1024];
    for &len in lengths {
        let a = "f".repeat(len);
        let b = "0".repeat(len);
        let expected = len as u64 * 4;
        let result =
            hamming_distance_string_dispatch_with_max(a.as_bytes(), b.as_bytes(), expected + 100).unwrap();
        assert_eq!(result, expected, "mismatch at len={}: expected {} got {}", len, expected, result);
    }
}

#[test]
fn test_string_dispatch_with_max_invalid_chars() {
    let a = "z".repeat(64);
    let b = "0".repeat(64);
    assert!(hamming_distance_string_dispatch_with_max(a.as_bytes(), b.as_bytes(), 100).is_err());
}

#[test]
fn test_string_dispatch_with_max_mixed_pattern() {
    let lengths: &[usize] = &[64, 128, 256, 1024];
    for &len in lengths {
        let a = "0123456789abcdef".repeat(len / 16);
        let b = "fedcba9876543210".repeat(len / 16);
        let full = hex_hamming_distance(&a, &b).unwrap();
        let result = hamming_distance_string_dispatch_with_max(a.as_bytes(), b.as_bytes(), full + 10).unwrap();
        assert_eq!(result, full, "within-threshold mismatch at len={}", len);
        let result_exact = hamming_distance_string_dispatch_with_max(a.as_bytes(), b.as_bytes(), full).unwrap();
        assert_eq!(result_exact, full, "exact-threshold mismatch at len={}", len);
        if full > 0 {
            let result_below =
                hamming_distance_string_dispatch_with_max(a.as_bytes(), b.as_bytes(), full - 1).unwrap();
            assert_eq!(result_below, u64::MAX, "below-threshold should be sentinel at len={}", len);
        }
    }
}

fn array_oracle(
    big: &[u8],
    small: &[u8],
    max_dist: i64,
) -> (Option<usize>, Option<(u64, usize)>, Vec<(u64, usize)>) {
    let width = small.len();
    let mut first = None;
    let mut best = None;
    let mut all = Vec::new();
    for (index, record) in big.chunks_exact(width).enumerate() {
        let distance = expected_byte_distance(record, small);
        if max_dist >= 0 && distance > max_dist as u64 {
            continue;
        }
        if first.is_none() {
            first = Some(index);
        }
        if best
            .map(|(best_distance, best_index)| {
                distance < best_distance || (distance == best_distance && index < best_index)
            })
            .unwrap_or(true)
        {
            best = Some((distance, index));
        }
        all.push((distance, index));
    }
    (first, best, all)
}

#[test]
fn test_fixed_width_array_scanners_match_randomized_oracle() {
    let cpu = x86_cpu();
    for algorithm in ["native", "classic"] {
        let algo = set_algorithm(algorithm, &cpu).unwrap();
        for &width in &[1usize, 3, 7, 15, 16, 17, 31, 32, 33] {
            let count = 37;
            let mut state = 0xA5A5_1234_5678_9ABCu64 ^ width as u64;
            let mut next_byte = || {
                state = state.wrapping_mul(6364136223846793005).wrapping_add(1442695040888963407);
                (state >> 56) as u8
            };
            let small: Vec<u8> = (0..width).map(|_| next_byte()).collect();
            let mut big: Vec<u8> = (0..count * width).map(|_| next_byte()).collect();
            for &index in &[2usize, 19, 36] {
                big[index * width..(index + 1) * width].copy_from_slice(&small);
            }
            let near_index = 12;
            big[near_index * width..(near_index + 1) * width].copy_from_slice(&small);
            big[near_index * width] ^= 0b1111;

            for max_dist in [0, 3, 4, 5, 8, -1] {
                let expected = array_oracle(&big, &small, max_dist);
                let scan = Scan::with_kernels(
                    &small,
                    max_dist,
                    select_bytes_kernel(algo),
                    select_array_scanner_for_width(algo, &cpu, width),
                );
                assert_eq!(
                    bytes_array_first_within_dist(&big, &small, max_dist).unwrap(),
                    expected.0,
                    "first mismatch algorithm={algorithm} width={width} max_dist={max_dist}"
                );
                assert_eq!(scan.first(&big), expected.0, "first mismatch algorithm={algorithm} width={width} max_dist={max_dist}");
                assert_eq!(
                    bytes_array_best_within_dist(&big, &small, max_dist).unwrap(),
                    expected.1,
                    "best mismatch algorithm={algorithm} width={width} max_dist={max_dist}"
                );
                assert_eq!(scan.best(&big), expected.1, "best mismatch algorithm={algorithm} width={width} max_dist={max_dist}");
                assert_eq!(
                    bytes_array_all_within_dist(&big, &small, max_dist).unwrap(),
                    expected.2,
                    "all mismatch algorithm={algorithm} width={width} max_dist={max_dist}"
                );
                assert_eq!(scan.all(&big), expected.2, "all mismatch algorithm={algorithm} width={width} max_dist={max_dist}");
            }
        }
    }
    set_algorithm("native", &cpu).unwrap();
}

#[test]
fn test_parallel_fixed_width_scanners_preserve_boundaries_and_order() {
    set_algorithm("native", &x86_cpu()).unwrap();
    let width = 16;
    let count = (16 * 1024 * 1024) / width + 7;
    let small = vec![0u8; width];
    let mut big = vec![0xFFu8; count * width];
    let quarter = count / 4;
    let exact_indices = [quarter - 1, quarter, quarter + 1, count - 1];
    for &index in &exact_indices {
        big[index * width..(index + 1) * width].copy_from_slice(&small);
    }
    assert_eq!(bytes_array_first_within_dist(&big, &small, 0).unwrap(), Some(exact_indices[0]));
    assert_eq!(bytes_array_best_within_dist(&big, &small, 0).unwrap(), Some((0, exact_indices[0])));
    let all = bytes_array_all_within_dist(&big, &small, 0).unwrap();
    assert_eq!(all, exact_indices.into_iter().map(|index| (0, index)).collect::<Vec<_>>());
    let scan = Scan::new(&small, 0);
    assert_eq!(scan.first_parallel(&big, 8), Some(exact_indices[0]));
    assert_eq!(scan.best_parallel(&big, 8), Some((0, exact_indices[0])));
    assert_eq!(scan.all_parallel(&big, 8), all);
}

#[test]
fn block_scanner_choice_follows_backend_and_processor() {
    let none = CpuFeatures {
        arch: Arch::X86_64,
        sse41: true,
        avx2: false,
        avx512bw: false,
        avx512bitalg: false,
        avx512f: false,
        avx512vpopcntdq: false,
        popcnt: true,
    };
    let avx2 = CpuFeatures { avx2: true, ..none };
    let avx512 = CpuFeatures { avx512f: true, avx512vpopcntdq: true, ..none };
    let arm = CpuFeatures { arch: Arch::Aarch64, sse41: false, popcnt: false, ..none };
    for width in [8usize, 16, 32, 64] {
        assert!(!select_array_scanner_for_width(Algorithm::Sse41, &avx512, width));
        assert!(!select_array_scanner_for_width(Algorithm::Classic, &avx512, width));
        assert!(!select_array_scanner_for_width(Algorithm::Native, &none, width));
        assert!(select_array_scanner_for_width(Algorithm::Native, &avx2, width));
        assert!(select_array_scanner_for_width(Algorithm::Avx2, &avx2, width));
        assert!(!select_array_scanner_for_width(Algorithm::Avx512, &avx2, width));
        assert!(select_array_scanner_for_width(Algorithm::Avx512, &avx512, width));
        assert!(!select_array_scanner_for_width(Algorithm::Avx2, &avx512, width));
        assert!(!select_array_scanner_for_width(Algorithm::Avx2, &CpuFeatures { popcnt: false, ..avx2 }, width));
        assert!(select_array_scanner_for_width(Algorithm::Native, &arm, width));
        assert!(select_array_scanner_for_width(Algorithm::Neon, &arm, width));
        assert!(!select_array_scanner_for_width(Algorithm::Classic, &arm, width));
    }
    for width in [1usize, 7, 20, 24, 128] {
        assert!(!select_array_scanner_for_width(Algorithm::Native, &avx512, width));
        assert!(!select_array_scanner_for_width(Algorithm::Native, &arm, width));
    }
}
