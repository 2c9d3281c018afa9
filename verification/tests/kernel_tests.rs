use hexhamming::hex::{hex_char_to_nibble, hex_char_to_val};
use hexhamming::kernels::{hamming_distance_bytes_classic, hamming_distance_bytes_native, popcnt64_native};
use hexhamming::popcount::popcnt64_classic;

#[test]
fn popcnt64_matches_count_ones() {
    for x in [0u64, 1, 0xFF, 0xDEADBEEF, 0xFFFFFFFFFFFFFFFF, 0x123456789ABCDEF0] {
        assert_eq!(popcnt64_native(x), x.count_ones() as u64);
    }
}

#[test]
fn bytes_native_full_distance() {
    assert_eq!(hamming_distance_bytes_native(b"\xff", b"\x00", -1), 8);
    assert_eq!(hamming_distance_bytes_native(b"\x00\x00", b"\x00\x00", -1), 0);
    let a = vec![0xFFu8; 64];
    let b = vec![0x00u8; 64];
    assert_eq!(hamming_distance_bytes_native(&a, &b, -1), 512);
}

#[test]
fn bytes_native_with_max_dist() {
    assert_eq!(hamming_distance_bytes_native(b"\xff", b"\xfe", 2), 1);
    assert_eq!(hamming_distance_bytes_native(b"\xff", b"\x00", 2), u64::MAX);
}

#[test]
fn bytes_native_agrees_with_classic() {
    for size in [1, 7, 8, 9, 15, 16, 31, 32, 33, 63, 64, 127] {
        let a: Vec<u8> = (0..size).map(|i| i as u8).collect();
        let b: Vec<u8> = (0..size).map(|i| (i as u8).wrapping_add(1)).collect();
        assert_eq!(
            hamming_distance_bytes_native(&a, &b, -1),
            hamming_distance_bytes_classic(&a, &b, -1),
            "mismatch at size {size}"
        );
    }
}

#[test]
fn nibble_digits() {
    for (i, c) in b"0123456789".iter().enumerate() {
        assert_eq!(hex_char_to_nibble(*c), i as u8);
    }
}

#[test]
fn nibble_upper() {
    for (i, c) in b"ABCDEF".iter().enumerate() {
        assert_eq!(hex_char_to_nibble(*c), 10 + i as u8);
    }
}

#[test]
fn nibble_lower() {
    for (i, c) in b"abcdef".iter().enumerate() {
        assert_eq!(hex_char_to_nibble(*c), 10 + i as u8);
    }
}

#[test]
fn nibble_invalid() {
    assert_eq!(hex_char_to_nibble(b'g'), 0xFF);
    assert_eq!(hex_char_to_nibble(b'z'), 0xFF);
    assert_eq!(hex_char_to_nibble(b'@'), 0xFF);
    assert_eq!(hex_char_to_nibble(b' '), 0xFF);
    assert_eq!(hex_char_to_nibble(b'/'), 0xFF);
    assert_eq!(hex_char_to_nibble(b':'), 0xFF);
    assert_eq!(hex_char_to_nibble(b'G'), 0xFF);
}

#[test]
fn hex_val_valid() {
    assert_eq!(hex_char_to_val(b'0'), Some(0));
    assert_eq!(hex_char_to_val(b'f'), Some(15));
    assert_eq!(hex_char_to_val(b'A'), Some(10));
}

#[test]
fn hex_val_invalid() {
    assert_eq!(hex_char_to_val(b'z'), None);
    assert_eq!(hex_char_to_val(b' '), None);
}

#[test]
fn classic_popcount_matches_count_ones() {
    for x in [0u64, 1, 0x80, 0xFF, 0xF0F0, 0xDEADBEEF, u64::MAX, 0x8000_0000_0000_0001, 0x123456789ABCDEF0] {
        assert_eq!(popcnt64_classic(x), x.count_ones() as u64);
    }
}

#[test]
fn bounded_kernels_return_distance_or_sentinel() {
    let a = [0xFFu8; 40];
    let b = [0u8; 40];
    for max_dist in [-1i64, 0, 1, 319, 320, 321] {
        let expected = if max_dist < 0 || 320 <= max_dist { 320 } else { u64::MAX };
        assert_eq!(hamming_distance_bytes_native(&a, &b, max_dist), expected, "native {max_dist}");
        assert_eq!(hamming_distance_bytes_classic(&a, &b, max_dist), expected, "classic {max_dist}");
    }
}
