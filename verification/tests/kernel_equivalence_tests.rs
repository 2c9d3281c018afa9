use hexhamming::algo::{set_algorithm, Arch, CpuFeatures};
use hexhamming::api::{
    bytes_array_all_within_dist, bytes_array_best_within_dist, bytes_array_first_within_dist,
    hex_hamming_distance,
};
use hexhamming::batch::{
    bytes_pairwise_distances, bytes_pairwise_distances_into, has_pairwise_kernel, pairwise_distances,
    pairwise_distances_into,
};
use hexhamming::block::{block_all, block_best, block_first};
use hexhamming::hex::hamming_distance_string_classic;
use hexhamming::kernels::{hamming_distance_bytes_classic, hamming_distance_bytes_native};
use hexhamming::packed::{hamming_distance_string_packed, hamming_distance_string_packed_with_max};

struct SplitMix {
    state: u64,
}

impl SplitMix {
    fn new(seed: u64) -> Self {
        Self { state: seed }
    }
    fn next(&mut self) -> u8 {
        self.state = self.state.wrapping_add(0x9E3779B97F4A7C15);
        let mut z = self.state;
        z = (z ^ (z >> 30)).wrapping_mul(0xBF58476D1CE4E5B9);
        z = (z ^ (z >> 27)).wrapping_mul(0x94D049BB133111EB);
        ((z ^ (z >> 31)) >> 56) as u8
    }
    fn vec(&mut self, n: usize) -> Vec<u8> {
        (0..n).map(|_| self.next()).collect()
    }
}

fn pseudo_random(len: usize, seed: u64) -> Vec<u8> {
    let mut state = seed;
    (0..len)
        .map(|_| {
            state = state.wrapping_add(0x9E37_79B9_7F4A_7C15);
            let mut v = state;
            v = (v ^ (v >> 30)).wrapping_mul(0xBF58_476D_1CE4_E5B9);
            v = (v ^ (v >> 27)).wrapping_mul(0x94D0_49BB_1331_11EB);
            ((v ^ (v >> 31)) >> 56) as u8
        })
        .collect()
}

fn distance(a: &[u8], b: &[u8]) -> u64 {
    a.iter().zip(b).map(|(&x, &y)| (x ^ y).count_ones() as u64).sum()
}

fn within(d: u64, max_dist: i64) -> bool {
    max_dist < 0 || d <= max_dist as u64
}

fn bounded_reference(a: &[u8], b: &[u8], max_dist: i64) -> u64 {
    let mut difference = 0u64;
    for (x, y) in a.iter().zip(b.iter()) {
        difference += (x ^ y).count_ones() as u64;
        if max_dist >= 0 && difference > max_dist as u64 {
            return u64::MAX;
        }
    }
    difference
}

fn oracle_first_best_all(
    big: &[u8],
    small: &[u8],
    max_dist: i64,
) -> (Option<usize>, Option<(u64, usize)>, Vec<(u64, usize)>) {
    let mut first = None;
    let mut best: Option<(u64, usize)> = None;
    let mut all = Vec::new();
    for (i, record) in big.chunks_exact(small.len()).enumerate() {
        let d = distance(record, small);
        if max_dist >= 0 && d > max_dist as u64 {
            continue;
        }
        if first.is_none() {
            first = Some(i);
        }
        best = match best {
            Some((bd, bi)) if bd < d || (bd == d && bi < i) => Some((bd, bi)),
            _ => Some((d, i)),
        };
        all.push((d, i));
    }
    (first, best, all)
}

#[test]
fn neon_string_basic() {
    assert_eq!(hamming_distance_string_packed(b"deadbeef", b"00000000").unwrap(), 24);
    assert_eq!(hamming_distance_string_packed(b"ffff", b"0000").unwrap(), 16);
    assert_eq!(hamming_distance_string_packed(b"0000", b"0000").unwrap(), 0);
}

#[test]
fn neon_string_16_chars() {
    let a = "f".repeat(16);
    let b = "0".repeat(16);
    assert_eq!(hamming_distance_string_packed(a.as_bytes(), b.as_bytes()).unwrap(), 64);
}

#[test]
fn neon_string_64_chars() {
    let a = "f".repeat(64);
    let b = "0".repeat(64);
    assert_eq!(hamming_distance_string_packed(a.as_bytes(), b.as_bytes()).unwrap(), 256);
}

#[test]
fn neon_string_invalid() {
    assert!(hamming_distance_string_packed(b"zzzzzzzzzzzzzzzz", b"0000000000000000").is_err());
    assert!(hamming_distance_string_packed(b"@@@@@@@@@@@@@@@@", b"0000000000000000").is_err());
}

#[test]
fn neon_pack_basic() {
    let a = "f".repeat(32);
    let b = "0".repeat(32);
    assert_eq!(hamming_distance_string_packed(a.as_bytes(), b.as_bytes()).unwrap(), 128);
}

#[test]
fn neon_pack_with_tail() {
    let a = "f".repeat(48);
    let b = "0".repeat(48);
    assert_eq!(hamming_distance_string_packed(a.as_bytes(), b.as_bytes()).unwrap(), 192);
}

#[test]
fn neon_agrees_with_classic() {
    let a = "0123456789abcdef".repeat(8);
    let b = "fedcba9876543210".repeat(8);
    assert_eq!(
        hamming_distance_string_packed(a.as_bytes(), b.as_bytes()).unwrap(),
        hamming_distance_string_classic(a.as_bytes(), b.as_bytes()).unwrap()
    );
}

#[test]
fn neon_pack_with_max_agrees_with_full() {
    for len in [64usize, 96, 128, 256, 1024] {
        let a = "f".repeat(len);
        let b = "0".repeat(len);
        let full = hamming_distance_string_packed(a.as_bytes(), b.as_bytes()).unwrap();
        let with_max = hamming_distance_string_packed_with_max(a.as_bytes(), b.as_bytes(), u64::MAX).unwrap();
        assert_eq!(full, with_max, "mismatch at len={len}: full={full} with_max={with_max}");
    }
}

#[test]
fn neon_pack_with_max_returns_sentinel() {
    for len in [64usize, 96, 128, 256, 1024] {
        let a = "f".repeat(len);
        let b = "0".repeat(len);
        let result = hamming_distance_string_packed_with_max(a.as_bytes(), b.as_bytes(), 1).unwrap();
        assert_eq!(result, u64::MAX, "expected sentinel for len={len}, got {result}");
    }
}

#[test]
fn neon_pack_with_max_returns_actual() {
    for len in [64usize, 96, 128, 256, 1024] {
        let a = "f".repeat(len);
        let b = "0".repeat(len);
        let expected = len as u64 * 4;
        let result =
            hamming_distance_string_packed_with_max(a.as_bytes(), b.as_bytes(), expected + 100).unwrap();
        assert_eq!(result, expected, "mismatch at len={len}: expected {expected} got {result}");
    }
}

#[test]
fn neon_pack_with_max_invalid_chars() {
    let a = "z".repeat(64);
    let b = "0".repeat(64);
    assert!(hamming_distance_string_packed_with_max(a.as_bytes(), b.as_bytes(), 100).is_err());
}

#[test]
fn bytes_native_16_agrees_with_generic() {
    let a: Vec<u8> = (0..16).map(|i| i as u8).collect();
    let b: Vec<u8> = (0..16).map(|i| (i as u8).wrapping_mul(17)).collect();
    for max_dist in [-1, 0, 1, 63, 64] {
        assert_eq!(
            hamming_distance_bytes_native(&a, &b, max_dist),
            hamming_distance_bytes_classic(&a, &b, max_dist),
            "mismatch at max_dist {max_dist}"
        );
    }
}

#[test]
fn avx512_masked_byte_inputs_match_scalar_results() {
    for length in [1usize, 7, 8, 15, 16, 31, 32, 48, 63] {
        let a = vec![0xFF; length];
        let b = vec![0x00; length];
        let expected = (length * 8) as u64;
        assert_eq!(hamming_distance_bytes_native(&a, &b, -1), expected);
        assert_eq!(hamming_distance_bytes_native(&a, &b, expected as i64), expected);
        assert_eq!(hamming_distance_bytes_native(&a, &b, expected as i64 - 1), u64::MAX);
    }
}

#[test]
fn avx512_small_byte_shortcut_matches_reference() {
    for length in 0usize..40 {
        let mut rng = SplitMix::new(0xB17E_512 ^ length as u64);
        let a = rng.vec(length);
        let b = rng.vec(length);
        for max_dist in [-1i64, 0, 1, 7, 8, 31, 32, 1000] {
            let want = bounded_reference(&a, &b, max_dist);
            let got = hamming_distance_bytes_native(&a, &b, max_dist);
            assert_eq!(got, want, "len={length} max_dist={max_dist}");
        }
    }
}

#[test]
fn avx512_vbmi_hex_matches_legacy_kernel() {
    let invalids = [b'g', b'G', b'z', b'!', b'/', b':', b'@', 0x80, 0xFF];
    for len in 0usize..=600 {
        let mut rng = SplitMix::new(0xA11CE ^ len as u64);
        let mut a = vec![0u8; len];
        let mut b = vec![0u8; len];
        const HEX: &[u8] = b"0123456789abcdefABCDEF";
        for i in 0..len {
            a[i] = HEX[rng.next() as usize % HEX.len()];
            b[i] = HEX[rng.next() as usize % HEX.len()];
        }
        for inject in [None, Some(len / 2), len.checked_sub(1)] {
            let mut aa = a.clone();
            if let Some(pos) = inject {
                if pos < len {
                    aa[pos] = invalids[(len + pos) % invalids.len()];
                }
            }
            let want = hamming_distance_string_classic(&aa, &b);
            let got = hamming_distance_string_packed(&aa, &b);
            assert_eq!(got, want, "len={len} inject={inject:?}");
        }
    }
}

#[test]
fn public_api_native_dispatch_matches_oracles() {
    let cpu = CpuFeatures { arch: Arch::Other, sse41: false, avx2: false, avx512bw: false, avx512bitalg: false, avx512f: false, avx512vpopcntdq: false, popcnt: false };
    let _ = set_algorithm("native", &cpu);
    for &width in &[1usize, 2, 7, 8, 15, 16, 31, 32, 63, 64, 65, 128] {
        for &count in &[0usize, 1, 2, 15, 16, 17, 31, 32, 33, 70, 257] {
            let mut rng = SplitMix::new(0xD15A_7000 ^ width as u64 ^ ((count as u64) << 16));
            let mut catalog = rng.vec(width * count);
            let query = rng.vec(width);
            if count > 2 {
                catalog[width..2 * width].copy_from_slice(&query);
            }
            let limits = [-1i64, 0, 1, (width * 4) as i64, (width * 8) as i64, (width * 8 + 1) as i64];
            for max_dist in limits {
                let (first, best, all) = oracle_first_best_all(&catalog, &query, max_dist);
                assert_eq!(
                    bytes_array_first_within_dist(&catalog, &query, max_dist).unwrap(),
                    first,
                    "first width={width} count={count} max={max_dist}"
                );
                assert_eq!(
                    bytes_array_best_within_dist(&catalog, &query, max_dist).unwrap(),
                    best,
                    "best width={width} count={count} max={max_dist}"
                );
                assert_eq!(
                    bytes_array_all_within_dist(&catalog, &query, max_dist).unwrap(),
                    all,
                    "all width={width} count={count} max={max_dist}"
                );
            }

            let a = rng.vec(width * count);
            let b = rng.vec(width * count);
            let pairwise = bytes_pairwise_distances(&a, &b, width).unwrap();
            let mut into = vec![0u8; count * 8];
            assert_eq!(bytes_pairwise_distances_into(&a, &b, width, &mut into).unwrap(), count);
            for i in 0..count {
                let want = distance(&a[i * width..(i + 1) * width], &b[i * width..(i + 1) * width]);
                assert_eq!(pairwise[i], want, "pairwise width={width} count={count} i={i}");
                assert_eq!(u64::from_le_bytes(into[i * 8..(i + 1) * 8].try_into().unwrap()), want);
            }
        }

        for len in 0usize..=128 {
            let mut a = String::with_capacity(len);
            let mut b = String::with_capacity(len);
            const HEX: &[u8] = b"0123456789abcdef";
            for i in 0..len {
                a.push(HEX[i % HEX.len()] as char);
                b.push(HEX[(i * 7 + 3) % HEX.len()] as char);
            }
            let want = hamming_distance_string_classic(a.as_bytes(), b.as_bytes());
            assert_eq!(hex_hamming_distance(&a, &b), want);
        }
        let _ = set_algorithm("native", &cpu);
    }
}

fn check_scanners(records: &[u8], query: &[u8], max_dist: i64, context: &str) {
    let width = query.len();
    let distances: Vec<u64> = records.chunks_exact(width).map(|record| distance(record, query)).collect();
    let all: Vec<(u64, usize)> = distances
        .iter()
        .enumerate()
        .filter(|&(_, &d)| within(d, max_dist))
        .map(|(i, &d)| (d, i))
        .collect();
    let first = all.first().map(|&(_, i)| i);
    let best = all.iter().copied().min();
    assert_eq!(block_first(records, query, max_dist), first, "first {context}");
    assert_eq!(block_best(records, query, max_dist), best, "best {context}");
    assert_eq!(block_all(records, query, max_dist), all, "all {context}");
}

#[test]
fn scanners_match_oracle() {
    for width in [8usize, 16, 32, 64] {
        let bits = width as i64 * 8;
        let limits = [0, 1, 2, 3, bits / 4, bits / 2, bits - 1, bits, bits + 1, 255, 256, 1000, i64::MAX, -1];
        for count in [0usize, 1, 2, 3, 4, 5, 7, 8, 9, 15, 16, 17, 31, 32, 33, 47, 48, 49, 100] {
            for seed in 0..4u64 {
                let query = pseudo_random(width, 0x51 + seed + 16 * width as u64);
                let mut records = pseudo_random(count * width, 0xA1 + seed + 16 * width as u64);
                for (i, record) in records.chunks_exact_mut(width).enumerate() {
                    match (i + seed as usize) % 7 {
                        0 if seed % 2 == 0 => record.copy_from_slice(&query),
                        1 => record.iter_mut().zip(&query).for_each(|(r, q)| *r = !q),
                        2 | 3 => {
                            record.copy_from_slice(&query);
                            record[i % width] ^= 0b1011 >> (i % 3);
                        }
                        _ => {}
                    }
                }
                for &max_dist in &limits {
                    check_scanners(
                        &records,
                        &query,
                        max_dist,
                        &format!("width={width} count={count} seed={seed} max_dist={max_dist}"),
                    );
                }
            }
        }
    }
}

#[test]
fn pairwise_matches_oracle() {
    for width in [8usize, 16, 20, 32, 64] {
        for count in [0usize, 1, 3, 4, 5, 8, 17, 40] {
            let a = pseudo_random(count * width, 0x11 + width as u64);
            let mut b = pseudo_random(count * width, 0x22 + width as u64);
            if count > 1 {
                b[..width].iter_mut().zip(&a[..width]).for_each(|(y, x)| *y = !x);
            }
            let want: Vec<u64> = a.chunks_exact(width).zip(b.chunks_exact(width)).map(|(x, y)| distance(x, y)).collect();
            assert_eq!(pairwise_distances(&a, &b, width), want, "width={width}");
            let mut out = vec![0u8; count * 8];
            pairwise_distances_into(&a, &b, width, &mut out);
            let got: Vec<u64> = out.chunks_exact(8).map(|chunk| u64::from_le_bytes(chunk.try_into().unwrap())).collect();
            assert_eq!(got, want, "into width={width}");
        }
    }
    assert!(!has_pairwise_kernel(24));
}
