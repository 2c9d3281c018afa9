use hexhamming::batch::bytes_pairwise_distances_into;
use hexhamming::block::{block_all, block_best, block_distances, block_first};

fn scalar_byte_distance(a: &[u8], b: &[u8]) -> u64 {
    a.iter().zip(b.iter()).map(|(x, y)| (x ^ y).count_ones() as u64).sum()
}

struct SplitMix {
    state: u64,
}

impl SplitMix {
    fn new(seed: u64) -> Self {
        Self { state: seed }
    }
    fn next(&mut self) -> u8 {
        self.state = self.state.wrapping_add(0x9E3779B97F4A7C15);
        let mut z = self.state;
        z = (z ^ (z >> 30)).wrapping_mul(0xBF58476D1CE4E5B9);
        z = (z ^ (z >> 27)).wrapping_mul(0x94D049BB133111EB);
        ((z ^ (z >> 31)) >> 56) as u8
    }
    fn vec(&mut self, n: usize) -> Vec<u8> {
        (0..n).map(|_| self.next()).collect()
    }
}

fn oracle_first_best_all(
    big: &[u8],
    small: &[u8],
    max_dist: i64,
) -> (Option<usize>, Option<(u64, usize)>, Vec<(u64, usize)>) {
    let mut first = None;
    let mut best: Option<(u64, usize)> = None;
    let mut all = Vec::new();
    for (i, record) in big.chunks_exact(small.len()).enumerate() {
        let d = scalar_byte_distance(record, small);
        if max_dist >= 0 && d > max_dist as u64 {
            continue;
        }
        if first.is_none() {
            first = Some(i);
        }
        best = match best {
            Some((bd, bi)) if bd < d || (bd == d && bi < i) => Some((bd, bi)),
            _ => Some((d, i)),
        };
        all.push((d, i));
    }
    (first, best, all)
}

#[test]
fn avx512_block16_distances_match_scalar() {
    fn check(width: usize, rng: &mut SplitMix) {
        let query = rng.vec(width);
        let mut records = rng.vec(16 * width);
        records[3 * width..4 * width].copy_from_slice(&query);
        for (dst, &q) in records[9 * width..10 * width].iter_mut().zip(&query) {
            *dst = !q;
        }
        let got = block_distances(&records, &query, 0, 16);
        for (i, &distance) in got.iter().enumerate() {
            let want = scalar_byte_distance(&records[i * width..(i + 1) * width], &query);
            assert_eq!(distance, want, "width={width} record={i}");
        }
    }
    let mut rng = SplitMix::new(0xC0FFEE_D15EA5E);
    for _ in 0..16 {
        check(8, &mut rng);
        check(16, &mut rng);
        check(32, &mut rng);
        check(64, &mut rng);
    }
}

fn assert_scanners_match_oracle(width: usize, count: usize, seed: u64) {
    let mut rng = SplitMix::new(seed);
    let small = rng.vec(width);
    let mut big = rng.vec(count * width);
    let match_indices = if count >= 8 { vec![1usize, count / 2, count - 1] } else { vec![0usize.min(count.saturating_sub(1))] };
    for &idx in &match_indices {
        let record = &mut big[idx * width..(idx + 1) * width];
        record.copy_from_slice(&small);
    }
    if count >= 4 {
        let near = count / 3;
        big[near * width..(near + 1) * width].copy_from_slice(&small);
        big[near * width] ^= 0xF0;
    }
    let w = width as i64;
    for &max_dist in &[-1i64, 0, 3, 4, 5, 8, 128, 4 * w - 8, 4 * w, 8 * w - 1, 8 * w, 8 * w + 1] {
        let (efirst, ebest, eall) = oracle_first_best_all(&big, &small, max_dist);
        assert_eq!(block_first(&big, &small, max_dist), efirst, "first mismatch width={width} count={count} max_dist={max_dist}");
        assert_eq!(block_best(&big, &small, max_dist), ebest, "best mismatch width={width} count={count} max_dist={max_dist}");
        assert_eq!(block_all(&big, &small, max_dist), eall, "all mismatch width={width} count={count} max_dist={max_dist}");
    }
}

#[test]
fn avx512_scanners_w16_random_oracle_various_counts() {
    for &count in &[1usize, 3, 4, 5, 7, 8, 15, 33, 64, 512] {
        assert_scanners_match_oracle(16, count, 0x1234_5678 ^ count as u64);
    }
}

#[test]
fn avx512_scanners_w32_random_oracle_various_counts() {
    for &count in &[1usize, 3, 4, 5, 7, 8, 15, 33, 64, 512] {
        assert_scanners_match_oracle(32, count, 0xCAFEBABE ^ count as u64);
    }
}

#[test]
fn avx512_scanners_w8_w64_random_oracle_various_counts() {
    for &width in &[8usize, 64] {
        for &count in &[1usize, 3, 15, 16, 17, 33, 70, 257] {
            assert_scanners_match_oracle(width, count, 0x5150_0000 ^ width as u64 ^ count as u64);
        }
    }
}

#[test]
fn avx512_scanner_best_preserves_lowest_index_tie() {
    let width = 16usize;
    let small = vec![0x5Au8; width];
    let count = 20usize;
    let mut big = vec![0xA5u8; count * width];
    for &i in &[3usize, 3, 7, 13] {
        big[i * width..(i + 1) * width].copy_from_slice(&small);
    }
    for &i in &[5usize, 15] {
        big[i * width..(i + 1) * width].copy_from_slice(&small);
        big[i * width] ^= 0x01;
    }
    assert_eq!(block_first(&big, &small, 0), Some(3));
    assert_eq!(block_best(&big, &small, -1), Some((0, 3)));
    let all = block_all(&big, &small, 1);
    assert_eq!(all, vec![(0, 3), (1, 5), (0, 7), (0, 13), (1, 15)]);
}

fn assert_avx2_scanners_match_oracle(width: usize, count: usize, seed: u64) {
    let mut rng = SplitMix::new(seed);
    let small = rng.vec(width);
    let mut big = rng.vec(count * width);
    if count > 3 {
        big[width..2 * width].copy_from_slice(&small);
        big[(count - 1) * width..count * width].copy_from_slice(&small);
    }
    for &max_dist in &[-1i64, 0, 1, 7, 32, 64, 128, 256, 512] {
        let (efirst, ebest, eall) = oracle_first_best_all(&big, &small, max_dist);
        assert_eq!(block_first(&big, &small, max_dist), efirst, "first width={width} count={count} max={max_dist}");
        assert_eq!(block_best(&big, &small, max_dist), ebest, "best width={width} count={count} max={max_dist}");
        assert_eq!(block_all(&big, &small, max_dist), eall, "all width={width} count={count} max={max_dist}");
    }
}

#[test]
fn avx2_scanners_random_oracle_various_widths_counts() {
    for &width in &[8usize, 16, 32, 64] {
        for &count in &[0usize, 1, 2, 7, 8, 9, 15, 16, 17, 33, 128] {
            assert_avx2_scanners_match_oracle(width, count, 0xA5A5_1234 ^ count as u64 ^ width as u64);
        }
    }
}

#[test]
fn avx2_pairwise_fixed_widths_match_scalar() {
    for &width in &[8usize, 16, 32, 64] {
        for &count in &[0usize, 1, 7, 8, 9, 31] {
            let mut rng = SplitMix::new(0x55AA_7788 ^ width as u64 ^ count as u64);
            let a = rng.vec(width * count);
            let b = rng.vec(width * count);
            let mut out = vec![0u8; count * 8];
            bytes_pairwise_distances_into(&a, &b, width, &mut out).unwrap();
            for i in 0..count {
                let got = u64::from_le_bytes(out[i * 8..(i + 1) * 8].try_into().unwrap());
                let want = scalar_byte_distance(&a[i * width..(i + 1) * width], &b[i * width..(i + 1) * width]);
                assert_eq!(got, want, "pairwise width={width} count={count} index={i}");
            }
        }
    }
}

#[test]
fn best_prefers_lowest_index_among_equal_distances() {
    for width in [8usize, 16, 32, 64] {
        let query = vec![0u8; width];
        let mut records = vec![0xFFu8; width * 40];
        for &index in &[5usize, 18, 33] {
            records[index * width] = 0b0000_0011;
            records[index * width + 1..(index + 1) * width].fill(0);
        }
        assert_eq!(block_best(&records, &query, -1), Some((2, 5)), "width={width}");
    }
}
