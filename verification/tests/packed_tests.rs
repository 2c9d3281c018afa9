use hexhamming::api::{hex_hamming_distance, hex_hamming_distance_pack};
use hexhamming::hex::{hamming_distance_string_classic, hamming_distance_string_with_max};
use hexhamming::packed::{hamming_distance_string_packed, hamming_distance_string_packed_with_max};

const HEX: &[u8] = b"0123456789abcdefABCDEF";

fn pseudo_hex(len: usize, seed: u64) -> Vec<u8> {
    let mut x = seed.wrapping_mul(6364136223846793005).wrapping_add(1442695040888963407);
    (0..len)
        .map(|_| {
            x = x.wrapping_mul(6364136223846793005).wrapping_add(1442695040888963407);
            HEX[((x >> 33) % HEX.len() as u64) as usize]
        })
        .collect()
}

fn nibble_distance(a: &[u8], b: &[u8]) -> u64 {
    let v = |c: u8| (c as char).to_digit(16).unwrap();
    a.iter().zip(b).map(|(x, y)| (v(*x) ^ v(*y)).count_ones() as u64).sum()
}

#[test]
fn packed_distance_matches_nibble_count() {
    for len in 0..130 {
        let a = pseudo_hex(len, len as u64);
        let b = pseudo_hex(len, 1000 + len as u64);
        let expected = nibble_distance(&a, &b);
        assert_eq!(hamming_distance_string_packed(&a, &b), Ok(expected), "len={len}");
        assert_eq!(hamming_distance_string_packed(&a, &b), hamming_distance_string_classic(&a, &b));
    }
}

#[test]
fn packed_distance_exact_values() {
    let ones = vec![b'f'; 48];
    let zeros = vec![b'0'; 48];
    assert_eq!(hamming_distance_string_packed(&ones, &zeros), Ok(192));
    let upper = vec![b'F'; 48];
    assert_eq!(hamming_distance_string_packed(&ones, &upper), Ok(0));
    let a = b"0123456789abcdef0123456789abcdef".to_vec();
    let b = b"fedcba9876543210fedcba9876543210".to_vec();
    // Each pair x, 15 - x differs in all four bits.
    assert_eq!(hamming_distance_string_packed(&a, &b), Ok(128));
}

#[test]
fn packed_distance_rejects_non_hex_anywhere() {
    for pos in [0usize, 15, 16, 31, 32, 47, 48, 50] {
        let mut a = vec![b'a'; 51];
        let b = vec![b'b'; 51];
        a[pos] = b'g';
        assert_eq!(hamming_distance_string_packed(&a, &b), Err("hex string contains invalid char"), "pos={pos}");
        assert_eq!(hamming_distance_string_packed(&b, &a), Err("hex string contains invalid char"), "pos={pos}");
    }
}

#[test]
fn packed_with_max_agrees_on_valid_strings() {
    for len in [32usize, 33, 47, 48, 63, 64, 65, 100] {
        let a = pseudo_hex(len, 7 * len as u64);
        let b = pseudo_hex(len, 9 * len as u64 + 1);
        let d = nibble_distance(&a, &b);
        assert_eq!(hamming_distance_string_packed_with_max(&a, &b, d), Ok(d));
        assert_eq!(hamming_distance_string_packed_with_max(&a, &b, d + 5), Ok(d));
        if d > 0 {
            assert_eq!(hamming_distance_string_packed_with_max(&a, &b, d - 1), Ok(u64::MAX));
        }
    }
}

#[test]
fn packed_with_max_decodes_a_block_before_counting_it() {
    // The distance exceeds the cutoff early in the first block, but the block
    // holds a bad character: the packed scan reports it, the
    // character-by-character scan stops at the cutoff first.
    let mut a = vec![b'f'; 64];
    let b = vec![b'0'; 64];
    a[31] = b'x';
    assert_eq!(hamming_distance_string_packed_with_max(&a, &b, 10), Err("hex string contains invalid char"));
    assert_eq!(hamming_distance_string_with_max(&a, &b, 10), Ok(u64::MAX));
}

#[test]
fn packed_with_max_stops_at_a_block_boundary() {
    // The first block already exceeds the cutoff; the bad character in the
    // second block is never read.
    let mut a = vec![b'f'; 64];
    let b = vec![b'0'; 64];
    a[40] = b'x';
    assert_eq!(hamming_distance_string_packed_with_max(&a, &b, 10), Ok(u64::MAX));
}

#[test]
fn packed_with_max_reads_the_whole_tail() {
    // 40 characters: one block within the cutoff, then a tail that exceeds
    // it before a bad character; the tail is read whole.
    let mut a = vec![b'0'; 40];
    let b = vec![b'0'; 40];
    for c in a.iter_mut().take(38).skip(32) {
        *c = b'f';
    }
    a[39] = b'z';
    assert_eq!(hamming_distance_string_packed_with_max(&a, &b, 4), Err("hex string contains invalid char"));
    assert_eq!(hamming_distance_string_with_max(&a, &b, 4), Ok(u64::MAX));
    a[39] = b'0';
    assert_eq!(hamming_distance_string_packed_with_max(&a, &b, 4), Ok(u64::MAX));
    assert_eq!(hamming_distance_string_packed_with_max(&a, &b, 24), Ok(24));
}

#[test]
fn packed_with_max_short_strings_check_every_character() {
    let mut a = vec![b'f'; 20];
    let b = vec![b'0'; 20];
    a[19] = b'x';
    assert_eq!(hamming_distance_string_packed_with_max(&a, &b, 10), Ok(u64::MAX));
    assert_eq!(hamming_distance_string_packed_with_max(&a, &b, 100), Err("hex string contains invalid char"));
}

#[test]
fn hex_hamming_distance_pack_examples() {
    assert_eq!(hex_hamming_distance_pack("deadbeef", "00000000"), Ok(24));
    assert_eq!(hex_hamming_distance_pack("", ""), Ok(0));
    assert_eq!(hex_hamming_distance_pack("ab", "abc"), Err("strings are NOT the same length"));
    let a = "0123456789abcdef".repeat(4);
    let b = "FEDCBA9876543210".repeat(4);
    assert_eq!(hex_hamming_distance_pack(&a, &b), Ok(256));
    assert_eq!(hex_hamming_distance_pack(&a, &b), hex_hamming_distance(&a, &b));
    let bad = format!("{}g", &a[..63]);
    assert_eq!(hex_hamming_distance_pack(&bad, &b), Err("hex string contains invalid char"));
}
