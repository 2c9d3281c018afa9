use hexhamming::algo::{Arch, CpuFeatures};
use hexhamming::legacy::{
    check_bytes_arrays_within_dist_impl, check_hexstrings_within_dist_impl,
    hamming_distance_bytes_avx2, hamming_distance_bytes_impl, hamming_distance_bytes_sse41,
    hamming_distance_string_impl, hamming_distance_string_sse41, has_avx2, has_sse41, legacy_set_algo,
};

fn cpu(arch: Arch, sse41: bool, avx2: bool) -> CpuFeatures {
    CpuFeatures { arch, sse41, avx2, avx512bw: false, avx512bitalg: false, avx512f: false, avx512vpopcntdq: false, popcnt: false }
}

fn oracle(a: &[u8], b: &[u8]) -> u64 {
    a.iter().zip(b.iter()).map(|(x, y)| (x ^ y).count_ones() as u64).sum()
}

#[test]
fn legacy_string_distance_examples() {
    assert_eq!(hamming_distance_string_impl("deadbeef", "00000000"), Ok(24));
    assert_eq!(hamming_distance_string_impl("DEADBEEF", "deadbeef"), Ok(0));
    assert_eq!(hamming_distance_string_impl("ffff", "0000"), Ok(16));
    assert!(hamming_distance_string_impl("zz", "00").is_err());
    assert!(hamming_distance_string_impl("0g", "00").is_err());
}

#[test]
fn legacy_decoder_rejects_characters_next_to_hex_digits() {
    // '@' and '`' sit just below 'A' and 'a'; ':' and '/' just around the
    // digits; 'G' and 'g' just above 'F' and 'f'. None is a hex digit.
    for c in ["@", "`", ":", "/", "G", "g"] {
        assert_eq!(hamming_distance_string_impl(c, "0"), Err("hex string contains invalid char"), "{c}");
        assert_eq!(hamming_distance_string_impl("0", c), Err("hex string contains invalid char"), "{c}");
        assert_eq!(check_hexstrings_within_dist_impl(c, "9", 100), Err("hex string contains invalid char"), "{c}");
    }
    assert_eq!(hamming_distance_string_impl("9aFf", "0AfF"), Ok(2));
    assert_eq!(check_hexstrings_within_dist_impl("@", "@", 0), Ok(true));
}

#[test]
fn legacy_bytes_distance_examples() {
    assert_eq!(hamming_distance_bytes_impl(b"\xde\xad\xbe\xef", b"\x00\x00\x00\x00"), 24);
    assert_eq!(hamming_distance_bytes_impl(b"\xff", b"\x00\xff"), 8);
    assert_eq!(hamming_distance_bytes_impl(b"", b""), 0);
}

#[test]
fn legacy_hexstrings_within_dist() {
    assert_eq!(check_hexstrings_within_dist_impl("ffff", "fffe", 2), Ok(true));
    assert_eq!(check_hexstrings_within_dist_impl("ffff", "0000", 15), Ok(false));
    assert_eq!(check_hexstrings_within_dist_impl("ffff", "0000", 16), Ok(true));
    assert_eq!(check_hexstrings_within_dist_impl("zz", "zz", 0), Ok(true));
    assert!(check_hexstrings_within_dist_impl("zz", "00", 0).is_err());
    // The cutoff is exceeded before the invalid character is reached.
    assert_eq!(check_hexstrings_within_dist_impl("fz", "00", 1), Ok(false));
}

#[test]
fn legacy_bytes_arrays_within_dist() {
    let big = [0x00u8; 16];
    let small = [0x0fu8; 4];
    assert_eq!(check_bytes_arrays_within_dist_impl(&big, &small, 64), 0);
    assert_eq!(check_bytes_arrays_within_dist_impl(&big, &small, 15), -1);
    let mut big2 = vec![0xFFu8; 12];
    big2[8..12].copy_from_slice(&small);
    assert_eq!(check_bytes_arrays_within_dist_impl(&big2, &small, 0), 2);
}

#[test]
fn legacy_feature_queries() {
    assert!(has_sse41(&cpu(Arch::X86_64, true, false)));
    assert!(!has_sse41(&cpu(Arch::Aarch64, true, true)));
    assert!(has_avx2(&cpu(Arch::X86_64, true, true)));
    assert!(!has_avx2(&cpu(Arch::X86_64, true, false)));
    assert!(!has_avx2(&cpu(Arch::Other, true, true)));
}

#[test]
fn legacy_simd_byte_kernels_match_oracle() {
    for len in [0usize, 1, 7, 8, 15, 16, 17, 31, 32, 33, 63, 64, 65, 100] {
        let a: Vec<u8> = (0..len).map(|i| (i * 37 + 11) as u8).collect();
        let b: Vec<u8> = (0..len).map(|i| (i * 91 + 5) as u8).collect();
        let want = oracle(&a, &b);
        for features in [cpu(Arch::X86_64, false, false), cpu(Arch::X86_64, true, false), cpu(Arch::X86_64, true, true)] {
            assert_eq!(hamming_distance_bytes_sse41(&a, &b, &features), want, "sse41 len={len}");
            assert_eq!(hamming_distance_bytes_avx2(&a, &b, &features), want, "avx2 len={len}");
        }
    }
}

#[test]
fn legacy_sse41_string_kernel() {
    let x86 = cpu(Arch::X86_64, true, false);
    let a = "0123456789abcdef".repeat(3) + "ABC";
    let b = "fedcba9876543210".repeat(3) + "abc";
    assert_eq!(hamming_distance_string_sse41(&a, &b, &x86), Ok(4 * 48));
    assert_eq!(hamming_distance_string_sse41("zz", "00", &x86), Err("hex string contains invalid char"));
    assert_eq!(
        hamming_distance_string_sse41("ff", "00", &cpu(Arch::X86_64, false, false)),
        Err("SSE4.1 not available, use fallback")
    );
    assert_eq!(
        hamming_distance_string_sse41("ff", "00", &cpu(Arch::Aarch64, true, true)),
        Err("SSE4.1 not available on this architecture")
    );
}

#[test]
fn legacy_set_algo_accepts_known_names_only() {
    assert_eq!(legacy_set_algo("extra"), "");
    assert_eq!(legacy_set_algo("native"), "");
    assert_eq!(legacy_set_algo("sse41"), "");
    assert_eq!(legacy_set_algo("classic"), "");
    assert_eq!(legacy_set_algo("avx512"), "Library was built without this algorithm.");
    assert_eq!(legacy_set_algo("Native"), "Library was built without this algorithm.");
    assert_eq!(legacy_set_algo(""), "Library was built without this algorithm.");
}
