//! Multi-index hashing (MIH): each code is cut into `m` substrings, and one
//! table per substring maps every substring value to the records that carry
//! it. A record within `d` bits of a query differs from it by at most
//! `d / m` bits in some substring (pigeonhole), so probing every table with
//! the query's substrings and their neighbours within that radius finds
//! every such record.
//!
//! Each table is a flat CSR bucket table: for a substring of `s` bits and
//! `N` records it takes `4 * ((2^s + 1) + N)` bytes.

use vstd::prelude::*;
use vstd::arithmetic::power2::{pow2, lemma_pow2_pos, lemma_pow2_unfold};
use crate::bits::{
    bits_dist, sub_val, lemma_bits_dist_split, extract_substring, enumerate_neighbors, key_dist,
    lemma_sub_val_dist, lemma_sub_val_bits, lemma_diff_count_symmetric,
};
use crate::records::{record, strictly_by_index};
use crate::scan::record_slice;

verus! {

/// Most substrings an index is cut into.
pub const MAX_M: usize = 64;
/// Widest substring, in bits.
pub const MAX_SUB_BITS: usize = 22;
/// Largest per-substring probe radius.
pub const MAX_PROBE_RADIUS: u32 = 4;

/// Bit offset at which substring `j` starts: the total width of the ones before it.
pub open spec fn part_start(s_bits: Seq<u8>, j: int) -> int
    decreases j,
{
    if j <= 0 {
        0
    } else {
        part_start(s_bits, j - 1) + s_bits[j - 1]
    }
}

/// Width of substring `j` when `bits` bits are cut into `m` balanced parts:
/// the first `bits % m` parts take one bit more.
pub open spec fn balanced_width(bits: int, m: int, j: int) -> int {
    bits / m + if j < bits % m {
        1int
    } else {
        0int
    }
}

/// Smallest `k` with `2^k >= n`.
pub open spec fn ceil_log2(n: nat) -> nat
    decreases n,
{
    if n <= 1 {
        0
    } else {
        1 + ceil_log2(((n + 1) / 2) as nat)
    }
}

/// Number of substrings the planner picks for `bits`-bit codes and `n`
/// records: substrings of about `ceil(log2 n) + 2` bits (between 4 and 22).
pub open spec fn planned_m(bits: int, n: int) -> int {
    let log2n = ceil_log2(if n < 2 {
        2nat
    } else {
        n as nat
    });
    let target = if log2n + 2 < 4 {
        4
    } else if log2n + 2 > MAX_SUB_BITS {
        MAX_SUB_BITS as int
    } else {
        log2n + 2int
    };
    let m = (bits + target - 1) / target;
    if m < 1 {
        1
    } else if m > MAX_M {
        MAX_M as int
    } else {
        m
    }
}

/// How the codes are cut: `m` substrings of `s_bits[j]` bits starting at bit
/// `s_off[j]`.
pub struct MihParams {
    pub m: usize,
    pub s_bits: Vec<u8>,
    pub s_off: Vec<u16>,
}

impl MihParams {
    /// The substrings tile the `bits`-bit codes, each 1 to 22 bits wide and
    /// starting where the previous one ends.
    pub open spec fn wf(&self, bits: int) -> bool {
        &&& 1 <= self.m <= MAX_M
        &&& self.s_bits@.len() == self.m
        &&& self.s_off@.len() == self.m
        &&& forall|j: int| 0 <= j < self.m ==> 1 <= #[trigger] self.s_bits@[j] <= MAX_SUB_BITS
        &&& forall|j: int| 0 <= j < self.m ==> #[trigger] self.s_off@[j] == part_start(self.s_bits@, j)
        &&& part_start(self.s_bits@, self.m as int) == bits
    }

    /// The substrings are the balanced cut of `bits` bits into `m` parts.
    pub open spec fn balanced(&self, bits: int) -> bool {
        forall|j: int| 0 <= j < self.m ==> #[trigger] self.s_bits@[j] == balanced_width(bits, self.m as int, j)
    }

    /// Cuts `bits`-bit codes into `m` balanced substrings, or `None` when `m`
    /// is outside `1..=64` or a substring would be wider than 22 bits.
    pub fn with_m(bits: usize, m: usize) -> (r: Option<MihParams>)
        requires
            bits <= u16::MAX,
            m <= bits,
        ensures
            r is Some <==> (1 <= m <= MAX_M && (bits + m - 1) / (m as int) <= MAX_SUB_BITS),
            r matches Some(p) ==> p.m == m && p.wf(bits as int) && p.balanced(bits as int),
    {
        if m == 0 || m > MAX_M || (bits + m - 1) / m > MAX_SUB_BITS {
            return None;
        }
        let base = bits / m;
        let extra = bits % m;
        proof {
            assert(bits == m * base + extra) by (nonlinear_arith)
                requires
                    m > 0,
                    base == bits / m,
                    extra == bits % m,
            ;
            assert((base + 1) * m == m * base + m) by (nonlinear_arith);
            assert(base * m == m * base) by (nonlinear_arith);
            if extra > 0 {
                vstd::arithmetic::div_mod::lemma_fundamental_div_mod_converse(
                    (bits + m - 1) as int,
                    m as int,
                    base + 1,
                    extra - 1,
                );
            } else {
                vstd::arithmetic::div_mod::lemma_fundamental_div_mod_converse(
                    (bits + m - 1) as int,
                    m as int,
                    base as int,
                    m - 1,
                );
            }
        }
        let mut s_bits: Vec<u8> = Vec::new();
        let mut s_off: Vec<u16> = Vec::new();
        let mut off: usize = 0;
        let mut j: usize = 0;
        while j < m
            invariant
                0 < m <= MAX_M,
                m <= bits <= u16::MAX,
                base == bits / m,
                extra == bits % m,
                bits == m * base + extra,
                extra < m,
                extra > 0 ==> base + 1 <= MAX_SUB_BITS,
                base <= MAX_SUB_BITS,
                0 <= j <= m,
                s_bits@.len() == j,
                s_off@.len() == j,
                off == part_start(s_bits@, j as int),
                off == j * base + if j < extra {
                    j as int
                } else {
                    extra as int
                },
                forall|i: int| 0 <= i < j ==> #[trigger] s_bits@[i] == balanced_width(bits as int, m as int, i),
                forall|i: int| 0 <= i < j ==> #[trigger] s_off@[i] == part_start(s_bits@, i),
            decreases m - j,
        {
            let w = base + if j < extra {
                1usize
            } else {
                0usize
            };
            proof {
                assert(off + w <= bits) by (nonlinear_arith)
                    requires
                        j < m,
                        bits == m * base + extra,
                        w == base + if j < extra {
                            1int
                        } else {
                            0int
                        },
                        off == j * base + if j < extra {
                            j as int
                        } else {
                            extra as int
                        },
                        extra < m,
                ;
                assert((j + 1) * base == j * base + base) by (nonlinear_arith);
            }
            let ghost prev = s_bits@;
            s_bits.push(w as u8);
            s_off.push(off as u16);
            proof {
                lemma_part_start_prefix(prev, s_bits@, j as int);
                assert(part_start(s_bits@, j as int) == part_start(prev, j as int));
                assert(part_start(s_bits@, j + 1) == part_start(s_bits@, j as int) + w);
                assert forall|i: int| 0 <= i < j + 1 implies #[trigger] s_off@[i] == part_start(s_bits@, i) by {
                    assert(part_start(s_bits@, i) == part_start(prev, i));
                }
            }
            off = off + w;
            j = j + 1;
        }
        proof {
            assert(m * base + extra == bits);
            assert forall|i: int| 0 <= i < m implies 1 <= #[trigger] s_bits@[i] <= MAX_SUB_BITS by {
                assert(s_bits@[i] == balanced_width(bits as int, m as int, i));
                if base == 0 {
                    assert(bits < m) by (nonlinear_arith)
                        requires
                            bits == m * base + extra,
                            base == 0,
                            extra < m,
                    ;
                }
            }
        }
        Some(MihParams { m, s_bits, s_off })
    }

    /// Cuts `bits`-bit codes for an index over `n` records, or `None` when
    /// such codes cannot be cut into at most 64 substrings of at most 22 bits.
    pub fn plan(bits: usize, n: usize) -> (r: Option<MihParams>)
        ensures
            r is Some <==> (1 <= bits <= MAX_M * MAX_SUB_BITS),
            r matches Some(p) ==> p.m == planned_m(bits as int, n as int) && p.wf(bits as int)
                && p.balanced(bits as int),
    {
        if bits == 0 || bits > 65535 || bits > MAX_M * MAX_SUB_BITS {
            return None;
        }
        let log2n = ceil_log2_exec(if n < 2 {
            2
        } else {
            n
        });
        let target = if log2n + 2 < 4 {
            4
        } else if log2n + 2 > MAX_SUB_BITS {
            MAX_SUB_BITS
        } else {
            log2n + 2
        };
        let m0 = (bits + target - 1) / target;
        let m = if m0 < 1 {
            1
        } else if m0 > MAX_M {
            MAX_M
        } else {
            m0
        };
        proof {
            assert(m0 <= bits) by (nonlinear_arith)
                requires
                    target >= 1,
                    m0 == (bits + target - 1) / (target as int),
                    bits >= 1,
            ;
            assert((bits + m - 1) / (m as int) <= MAX_SUB_BITS) by (nonlinear_arith)
                requires
                    4 <= target <= MAX_SUB_BITS,
                    m0 == (bits + target - 1) / (target as int),
                    1 <= bits <= MAX_M * MAX_SUB_BITS,
                    m == if m0 < 1 {
                        1
                    } else if m0 > MAX_M {
                        MAX_M as int
                    } else {
                        m0 as int
                    },
            ;
        }
        Self::with_m(bits, m)
    }
}

proof fn lemma_part_start_prefix(a: Seq<u8>, b: Seq<u8>, k: int)
    requires
        0 <= k <= a.len(),
        k <= b.len(),
        forall|i: int| 0 <= i < k ==> a[i] == b[i],
    ensures
        forall|i: int| 0 <= i <= k ==> #[trigger] part_start(b, i) == part_start(a, i),
    decreases k,
{
    if k > 0 {
        lemma_part_start_prefix(a, b, k - 1);
        assert(a[k - 1] == b[k - 1]);
        assert(part_start(b, k - 1) == part_start(a, k - 1));
        assert(part_start(b, k) == part_start(a, k));
    }
}

/// `n <= 2^k` needs at most `k` doublings.
proof fn lemma_ceil_log2_le(n: nat, k: nat)
    requires
        n <= pow2(k),
    ensures
        ceil_log2(n) <= k,
    decreases k,
{
    if n > 1 {
        if k == 0 {
            vstd::arithmetic::power2::lemma2_to64();
        } else {
            lemma_pow2_unfold(k);
            lemma_ceil_log2_le(((n + 1) / 2) as nat, (k - 1) as nat);
        }
    }
}

/// Smallest `k` with `2^k >= n`, for `n >= 1`.
fn ceil_log2_exec(n: usize) -> (k: usize)
    requires
        n >= 1,
    ensures
        k == ceil_log2(n as nat),
        k <= 64,
{
    proof {
        vstd::arithmetic::power2::lemma2_to64();
        vstd::arithmetic::power2::lemma2_to64_rest();
        lemma_ceil_log2_le(n as nat, 64);
    }
    let mut k: usize = 0;
    let mut x = n;
    while x > 1
        invariant
            1 <= x <= n,
            k + ceil_log2(x as nat) == ceil_log2(n as nat),
            ceil_log2(n as nat) <= 64,
        decreases x,
    {
        x = x / 2 + x % 2;
        k = k + 1;
    }
    k
}

/// Differing bits of `a` and `b` inside substring `j` of the cut `s_bits`.
pub open spec fn part_dist(a: Seq<u8>, b: Seq<u8>, s_bits: Seq<u8>, j: int) -> nat {
    bits_dist(a, b, part_start(s_bits, j), part_start(s_bits, j) + s_bits[j])
}

/// Differing bits inside the first `k` substrings, substring by substring.
pub open spec fn parts_sum(a: Seq<u8>, b: Seq<u8>, s_bits: Seq<u8>, k: int) -> nat
    decreases k,
{
    if k <= 0 {
        0
    } else {
        parts_sum(a, b, s_bits, k - 1) + part_dist(a, b, s_bits, k - 1)
    }
}

proof fn lemma_parts_sum(a: Seq<u8>, b: Seq<u8>, s_bits: Seq<u8>, k: int)
    requires
        0 <= k,
    ensures
        bits_dist(a, b, 0, part_start(s_bits, k)) == parts_sum(a, b, s_bits, k),
        0 <= part_start(s_bits, k),
    decreases k,
{
    if k > 0 {
        lemma_parts_sum(a, b, s_bits, k - 1);
        lemma_bits_dist_split(a, b, 0, part_start(s_bits, k - 1), part_start(s_bits, k));
    }
}

proof fn lemma_parts_sum_lower(a: Seq<u8>, b: Seq<u8>, s_bits: Seq<u8>, k: int, t: int)
    requires
        0 <= k,
        forall|j: int| 0 <= j < k ==> #[trigger] part_dist(a, b, s_bits, j) > t,
    ensures
        parts_sum(a, b, s_bits, k) >= k * (t + 1),
    decreases k,
{
    if k > 0 {
        lemma_parts_sum_lower(a, b, s_bits, k - 1, t);
        assert(part_dist(a, b, s_bits, k - 1) > t);
        assert(k * (t + 1) == (k - 1) * (t + 1) + (t + 1)) by (nonlinear_arith);
    } else {
        assert(k * (t + 1) == 0) by (nonlinear_arith)
            requires
                k == 0,
        ;
    }
}

/// Pigeonhole: codes within `d` bits of each other differ by at most `d / m`
/// bits in at least one of the `m` substrings that tile them.
pub proof fn lemma_pigeonhole(a: Seq<u8>, b: Seq<u8>, s_bits: Seq<u8>, m: int, d: int)
    requires
        1 <= m,
        0 <= d,
        bits_dist(a, b, 0, part_start(s_bits, m)) <= d,
    ensures
        exists|j: int| 0 <= j < m && #[trigger] part_dist(a, b, s_bits, j) <= d / m,
{
    lemma_parts_sum(a, b, s_bits, m);
    if forall|j: int| 0 <= j < m ==> #[trigger] part_dist(a, b, s_bits, j) > d / m {
        lemma_parts_sum_lower(a, b, s_bits, m, d / m);
        assert(m * (d / m + 1) > d) by (nonlinear_arith)
            requires
                1 <= m,
                0 <= d,
        {
            vstd::arithmetic::div_mod::lemma_fundamental_div_mod(d, m);
            vstd::arithmetic::div_mod::lemma_mod_pos_bound(d, m);
        }
    }
}

/// The `s`-bit substring at bit `off` of each `width`-byte record.
pub open spec fn table_keys(records: Seq<u8>, width: int, off: int, s: int) -> Seq<nat> {
    Seq::new((records.len() as int / width) as nat, |r: int| sub_val(record(records, width, r), off, s))
}

/// Among the first `i` keys, how many equal `k`.
pub open spec fn count_eq(keys: Seq<nat>, k: int, i: int) -> nat
    decreases i,
{
    if i <= 0 {
        0
    } else {
        count_eq(keys, k, i - 1) + if keys[i - 1] == k {
            1nat
        } else {
            0nat
        }
    }
}

/// Among the first `i` keys, how many are below `k`.
pub open spec fn count_lt(keys: Seq<nat>, k: int, i: int) -> nat
    decreases i,
{
    if i <= 0 {
        0
    } else {
        count_lt(keys, k, i - 1) + if keys[i - 1] < k {
            1nat
        } else {
            0nat
        }
    }
}

proof fn lemma_count_le(keys: Seq<nat>, k: int, i: int)
    requires
        0 <= i,
    ensures
        count_eq(keys, k, i) <= i,
        count_lt(keys, k, i) <= i,
    decreases i,
{
    if i > 0 {
        lemma_count_le(keys, k, i - 1);
    }
}

proof fn lemma_count_lt_step(keys: Seq<nat>, k: int, i: int)
    ensures
        count_lt(keys, k + 1, i) == count_lt(keys, k, i) + count_eq(keys, k, i),
    decreases i,
{
    if i > 0 {
        lemma_count_lt_step(keys, k, i - 1);
    }
}

proof fn lemma_count_lt_zero(keys: Seq<nat>, i: int)
    ensures
        count_lt(keys, 0, i) == 0,
    decreases i,
{
    if i > 0 {
        lemma_count_lt_zero(keys, i - 1);
    }
}

proof fn lemma_count_lt_monotone(keys: Seq<nat>, k1: int, k2: int, i: int)
    requires
        k1 <= k2,
    ensures
        count_lt(keys, k1, i) <= count_lt(keys, k2, i),
    decreases i,
{
    if i > 0 {
        lemma_count_lt_monotone(keys, k1, k2, i - 1);
    }
}

proof fn lemma_count_lt_all(keys: Seq<nat>, k: int, i: int)
    requires
        0 <= i <= keys.len(),
        forall|r: int| 0 <= r < i ==> keys[r] < k,
    ensures
        count_lt(keys, k, i) == i,
    decreases i,
{
    if i > 0 {
        lemma_count_lt_all(keys, k, i - 1);
    }
}

/// Below `i` lie at least `c + 1` keys equal to `k`: the one preceded by
/// exactly `c` of them is at some position `q < i`.
proof fn lemma_occurrence(keys: Seq<nat>, k: int, i: int, c: int)
    requires
        0 <= c < count_eq(keys, k, i),
    ensures
        exists|q: int| 0 <= q < i && keys[q] == k && #[trigger] count_eq(keys, k, q) == c,
    decreases i,
{
    if i > 0 {
        if c < count_eq(keys, k, i - 1) {
            lemma_occurrence(keys, k, i - 1, c);
        } else {
            assert(keys[i - 1] == k && count_eq(keys, k, i - 1) == c);
        }
    }
}

proof fn lemma_count_eq_monotone(keys: Seq<nat>, k: int, i1: int, i2: int)
    requires
        i1 <= i2,
    ensures
        count_eq(keys, k, i1) <= count_eq(keys, k, i2),
        0 <= i1 < i2 && keys[i1] == k ==> count_eq(keys, k, i1) + 1 <= count_eq(keys, k, i2),
    decreases i2 - i1,
{
    if i1 < i2 {
        lemma_count_eq_monotone(keys, k, i1, i2 - 1);
    }
}

/// Flat CSR bucket table of one substring: the records whose substring value
/// is `k` are `records[offsets[k]..offsets[k + 1]]`.
pub struct BucketTable {
    pub offsets: Vec<u32>,
    pub records: Vec<u32>,
    pub s_bits: u8,
    pub bit_off: u16,
}

impl BucketTable {
    /// The table indexes the `width`-byte records of `catalog`: every bucket
    /// lies inside the record list, every listed record exists, and every
    /// record is listed in the bucket of its substring value.
    pub open spec fn wf(&self, catalog: Seq<u8>, width: int) -> bool {
        let n = catalog.len() as int / width;
        let card = pow2(self.s_bits as nat);
        let keys = table_keys(catalog, width, self.bit_off as int, self.s_bits as int);
        &&& 1 <= self.s_bits <= MAX_SUB_BITS
        &&& n <= u32::MAX
        &&& self.offsets@.len() == card + 1
        &&& self.records@.len() == n
        &&& forall|k: int| 0 <= k < card ==> #[trigger] self.offsets@[k] <= self.offsets@[k + 1] <= n
        &&& forall|slot: int| 0 <= slot < n ==> #[trigger] self.records@[slot] < n
        &&& forall|r: int| 0 <= r < n ==> #[trigger] self.listed(keys[r] as int, r)
        &&& forall|k: int| 0 <= k < card ==> #[trigger] self.holds_only(keys, k)
        &&& self.sorted_by_key(keys, n)
    }

    /// The table is the stable sort of the records by key: bucket `k` starts
    /// after the records with smaller keys, and record `r` sits after the
    /// records of its bucket that come before it.
    #[verifier::opaque]
    pub open spec fn sorted_by_key(&self, keys: Seq<nat>, n: int) -> bool {
        &&& forall|k: int| 0 <= k <= pow2(self.s_bits as nat) ==> #[trigger] self.offsets@[k] == count_lt(keys, k, n)
        &&& forall|r: int|
            0 <= r < n ==> self.records@[(count_lt(keys, keys[r] as int, n) + #[trigger] count_eq(
                keys,
                keys[r] as int,
                r,
            )) as int] == r
    }

    /// The bucket of `key` holds only records whose substring is `key`.
    pub open spec fn holds_only(&self, keys: Seq<nat>, key: int) -> bool {
        forall|slot: int|
            self.offsets@[key] <= slot < self.offsets@[key + 1] ==> keys[#[trigger] self.records@[slot] as int]
                == key
    }

    /// Record `r` is listed in the bucket of `key`.
    pub open spec fn listed(&self, key: int, r: int) -> bool {
        exists|slot: int|
            self.offsets@[key] <= slot < self.offsets@[key + 1] && #[trigger] self.records@[slot] == r
    }

    /// Counting sort of the records by the `s_bits`-bit substring at bit `bit_off`.
    pub fn build(catalog: &[u8], width: usize, s_bits: u8, bit_off: u16) -> (t: BucketTable)
        requires
            0 < width,
            catalog@.len() % (width as nat) == 0,
            catalog@.len() / (width as nat) <= u32::MAX,
            1 <= s_bits <= MAX_SUB_BITS,
            bit_off + s_bits <= 8 * width,
        ensures
            t.wf(catalog@, width as int),
            t.s_bits == s_bits,
            t.bit_off == bit_off,
    {
        let n = catalog.len() / width;
        let ghost keys = table_keys(catalog@, width as int, bit_off as int, s_bits as int);
        proof {
            vstd::bits::lemma_usize_pow2_no_overflow(s_bits as nat);
            vstd::bits::lemma_usize_shl_is_mul(1usize, s_bits as usize);
            lemma_pow2_pos(s_bits as nat);
            vstd::arithmetic::power2::lemma_pow2_strictly_increases(s_bits as nat, 23);
            vstd::arithmetic::power2::lemma2_to64();
        }
        let cardinality: usize = 1usize << (s_bits as usize);
        let mut offsets: Vec<u32> = vec![0u32; cardinality + 1];
        let mut r: usize = 0;
        while r < n
            invariant
                0 < width,
                n == catalog@.len() / (width as nat),
                n <= u32::MAX,
                1 <= s_bits <= MAX_SUB_BITS,
                bit_off + s_bits <= 8 * width,
                cardinality == pow2(s_bits as nat),
                cardinality < 0x80_0000,
                keys == table_keys(catalog@, width as int, bit_off as int, s_bits as int),
                0 <= r <= n,
                offsets@.len() == cardinality + 1,
                offsets@[0] == 0,
                forall|k: int| 0 <= k < cardinality ==> #[trigger] offsets@[k + 1] == count_eq(keys, k, r as int),
            decreases n - r,
        {
            let rec = record_slice(catalog, width, r);
            let key = extract_substring(rec, bit_off as usize, s_bits as usize) as usize;
            proof {
                assert(key == keys[r as int]);
                lemma_count_le(keys, key as int, r as int);
            }
            let c = offsets[key + 1];
            offsets.set(key + 1, c + 1);
            proof {
                assert forall|k: int| 0 <= k < cardinality implies #[trigger] offsets@[k + 1] == count_eq(keys, k, r + 1) by {
                    assert(count_eq(keys, k, r + 1) == count_eq(keys, k, r as int) + if keys[r as int] == k { 1nat } else { 0nat });
                }
            }
            r = r + 1;
        }
        let mut i: usize = 1;
        proof {
            lemma_count_lt_zero(keys, n as int);
            assert forall|k: int| 1 <= k <= cardinality implies #[trigger] offsets@[k] == count_eq(keys, k - 1, n as int) by {
                assert(offsets@[(k - 1) + 1] == count_eq(keys, k - 1, n as int));
            }
        }
        while i <= cardinality
            invariant
                n == catalog@.len() / (width as nat),
                n <= u32::MAX,
                cardinality == pow2(s_bits as nat),
                cardinality < 0x80_0000,
                keys.len() == n,
                1 <= i <= cardinality + 1,
                offsets@.len() == cardinality + 1,
                forall|k: int| 0 <= k < i ==> #[trigger] offsets@[k] == count_lt(keys, k, n as int),
                forall|k: int| i <= k <= cardinality ==> #[trigger] offsets@[k] == count_eq(keys, k - 1, n as int),
            decreases cardinality + 1 - i,
        {
            proof {
                lemma_count_lt_step(keys, i - 1, n as int);
                lemma_count_le(keys, i as int, n as int);
            }
            let v = offsets[i] + offsets[i - 1];
            offsets.set(i, v);
            i = i + 1;
        }
        proof {
            assert forall|r: int| 0 <= r < n implies keys[r] < cardinality by {
                crate::bits::lemma_sub_val_bits(record(catalog@, width as int, r), bit_off as int, s_bits as int);
            }
            lemma_count_lt_all(keys, cardinality as int, n as int);
            assert forall|k: int| 0 <= k < cardinality implies #[trigger] offsets@[k] <= offsets@[k + 1] <= n by {
                lemma_count_lt_monotone(keys, k, k + 1, n as int);
                lemma_count_lt_monotone(keys, k + 1, cardinality as int, n as int);
            }
        }
        let placed_init = offsets.clone();
        let mut placed = placed_init;
        let mut ids: Vec<u32> = vec![0u32; n];
        let mut r: usize = 0;
        while r < n
            invariant
                0 < width,
                n == catalog@.len() / (width as nat),
                n <= u32::MAX,
                1 <= s_bits <= MAX_SUB_BITS,
                bit_off + s_bits <= 8 * width,
                cardinality == pow2(s_bits as nat),
                keys == table_keys(catalog@, width as int, bit_off as int, s_bits as int),
                forall|q: int| 0 <= q < n ==> keys[q] < cardinality,
                count_lt(keys, cardinality as int, n as int) == n,
                0 <= r <= n,
                offsets@.len() == cardinality + 1,
                forall|k: int| 0 <= k <= cardinality ==> #[trigger] offsets@[k] == count_lt(keys, k, n as int),
                placed@.len() == cardinality + 1,
                forall|k: int| 0 <= k < cardinality ==> #[trigger] placed@[k] == count_lt(keys, k, n as int) + count_eq(keys, k, r as int),
                ids@.len() == n,
                forall|slot: int| 0 <= slot < n ==> #[trigger] ids@[slot] < n,
                forall|q: int|
                    0 <= q < r ==> ids@[(count_lt(keys, keys[q] as int, n as int) + count_eq(keys, keys[q] as int, q)) as int] == q,
            decreases n - r,
        {
            let rec = record_slice(catalog, width, r);
            let key = extract_substring(rec, bit_off as usize, s_bits as usize) as usize;
            let ghost k = key as int;
            proof {
                assert(key == keys[r as int]);
                lemma_count_eq_monotone(keys, k, r as int, n as int);
                lemma_count_lt_step(keys, k, n as int);
                lemma_count_lt_monotone(keys, k + 1, cardinality as int, n as int);
            }
            let slot = placed[key] as usize;
            let ghost before = ids@;
            ids.set(slot, r as u32);
            placed.set(key, (slot + 1) as u32);
            proof {
                assert forall|q: int| 0 <= q < r + 1 implies ids@[(count_lt(keys, keys[q] as int, n as int) + count_eq(keys, keys[q] as int, q)) as int] == q by {
                    if q < r {
                        let kq = keys[q] as int;
                        let sq = (count_lt(keys, kq, n as int) + count_eq(keys, kq, q)) as int;
                        lemma_count_eq_monotone(keys, kq, q, n as int);
                        lemma_count_lt_step(keys, kq, n as int);
                        lemma_count_lt_monotone(keys, kq + 1, cardinality as int, n as int);
                        if kq == k {
                            lemma_count_eq_monotone(keys, k, q, r as int);
                        } else if kq < k {
                            lemma_count_eq_monotone(keys, kq, q, n as int);
                            lemma_count_lt_step(keys, kq, n as int);
                            lemma_count_lt_monotone(keys, kq + 1, k, n as int);
                        } else {
                            lemma_count_lt_monotone(keys, k + 1, kq, n as int);
                        }
                        assert(sq != slot);
                        assert(ids@[sq] == before[sq]);
                    }
                }
                assert forall|kk: int| 0 <= kk < cardinality implies #[trigger] placed@[kk] == count_lt(keys, kk, n as int) + count_eq(keys, kk, r + 1) by {
                    assert(count_eq(keys, kk, r + 1) == count_eq(keys, kk, r as int) + if keys[r as int] == kk { 1nat } else { 0nat });
                }
            }
            r = r + 1;
        }
        let t = BucketTable { offsets, records: ids, s_bits, bit_off };
        proof {
            assert forall|q: int| 0 <= q < n implies #[trigger] t.listed(keys[q] as int, q) by {
                let kq = keys[q] as int;
                let sq = (count_lt(keys, kq, n as int) + count_eq(keys, kq, q)) as int;
                lemma_count_eq_monotone(keys, kq, q, n as int);
                lemma_count_lt_step(keys, kq, n as int);
                assert(t.records@[sq] == q);
            }
            reveal(BucketTable::sorted_by_key);
            assert forall|k: int| 0 <= k < cardinality implies #[trigger] t.holds_only(keys, k) by {
                assert forall|slot: int| t.offsets@[k] <= slot < t.offsets@[k + 1] implies keys[#[trigger] t.records@[slot] as int]
                    == k by {
                    lemma_count_lt_step(keys, k, n as int);
                    let c = slot - count_lt(keys, k, n as int);
                    lemma_occurrence(keys, k, n as int, c);
                    let q = choose|q: int| 0 <= q < n && keys[q] == k && #[trigger] count_eq(keys, k, q) == c;
                    assert(t.records@[(count_lt(keys, keys[q] as int, n as int) + count_eq(keys, keys[q] as int, q)) as int] == q);
                }
            }
        }
        t
    }

    /// Records whose substring value is `key`.
    pub fn bucket(&self, key: u32) -> (b: &[u32])
        requires
            self.offsets@.len() >= 2,
            key < self.offsets@.len() - 1,
            self.offsets@[key as int] <= self.offsets@[key + 1] <= self.records@.len(),
        ensures
            b@ == self.records@.subrange(self.offsets@[key as int] as int, self.offsets@[key + 1] as int),
    {
        let len = self.offsets.len();
        let start = self.offsets[key as usize] as usize;
        let end = self.offsets[key as usize + 1] as usize;
        vstd::slice::slice_subrange(self.records.as_slice(), start, end)
    }
}

/// Record `r` of the catalog has a substring within `t` bits of the query's.
pub open spec fn shares_part(
    catalog: Seq<u8>,
    width: int,
    query: Seq<u8>,
    s_bits: Seq<u8>,
    m: int,
    t: int,
    r: int,
) -> bool {
    exists|j: int| 0 <= j < m && #[trigger] part_dist(record(catalog, width, r), query, s_bits, j) <= t
}

/// A record listed in table `j` under a key within `t` bits of the query's
/// key for that table shares a substring with the query.
proof fn lemma_bucket_member_shares_part(
    ix: MihIndex,
    catalog: Seq<u8>,
    width: int,
    query: Seq<u8>,
    j: int,
    qkey: u32,
    key: u32,
    slot: int,
    t: int,
)
    requires
        ix.wf(catalog, width),
        0 < width,
        query.len() == width,
        0 <= j < ix.params.m,
        qkey == sub_val(query, ix.tables@[j].bit_off as int, ix.tables@[j].s_bits as int),
        key < pow2(ix.tables@[j].s_bits as nat),
        key_dist(qkey, key, ix.tables@[j].s_bits as int) <= t,
        ix.tables@[j].offsets@[key as int] <= slot < ix.tables@[j].offsets@[key + 1],
    ensures
        shares_part(
            catalog,
            width,
            query,
            ix.params.s_bits@,
            ix.params.m as int,
            t,
            ix.tables@[j].records@[slot] as int,
        ),
{
    let table = ix.tables@[j];
    let off = table.bit_off as int;
    let sb = table.s_bits as int;
    let keys = table_keys(catalog, width, off, sb);
    assert(table.wf(catalog, width));
    assert(table.holds_only(keys, key as int));
    let r = table.records@[slot] as int;
    let n = catalog.len() as int / width;
    assert(0 <= slot < n) by {
        assert(table.offsets@[key as int] <= table.offsets@[key as int + 1] <= n);
    }
    assert(keys[r] == key);
    let rec = record(catalog, width, r);
    lemma_sub_val_bits(rec, off, sb);
    lemma_sub_val_dist(rec, query, off, sb);
    lemma_diff_count_symmetric(sub_val(rec, off, sb) as u32, qkey, 0, sb);
    assert(sub_val(rec, off, sb) as u32 == key);
    assert(part_dist(rec, query, ix.params.s_bits@, j) <= t);
}

/// A multi-index over a catalog: the cut of its codes and one bucket table
/// per substring.
pub struct MihIndex {
    pub params: MihParams,
    pub tables: Vec<BucketTable>,
}

/// Bytes a bucket table over `n` records takes for an `s`-bit substring.
pub open spec fn table_bytes(s: int, n: int) -> int {
    4 * (pow2(s as nat) + 1 + n)
}

/// Bytes the tables of the substrings `0..k` take.
pub open spec fn tables_bytes(s_bits: Seq<u8>, k: int, n: int) -> int
    decreases k,
{
    if k <= 0 {
        0
    } else {
        tables_bytes(s_bits, k - 1, n) + table_bytes(s_bits[k - 1] as int, n)
    }
}

/// Bytes the tables of an index take, saturating at `usize::MAX`.
pub open spec fn index_bytes(s_bits: Seq<u8>, m: int, n: int) -> int {
    if tables_bytes(s_bits, m, n) <= usize::MAX {
        tables_bytes(s_bits, m, n)
    } else {
        usize::MAX as int
    }
}

impl MihIndex {
    /// Every table indexes the catalog's records by its substring of the cut.
    pub open spec fn wf(&self, catalog: Seq<u8>, width: int) -> bool {
        &&& self.params.wf(8 * width)
        &&& self.tables@.len() == self.params.m
        &&& forall|j: int|
            0 <= j < self.params.m ==> {
                &&& (#[trigger] self.tables@[j]).s_bits == self.params.s_bits@[j]
                &&& self.tables@[j].bit_off == self.params.s_off@[j]
                &&& self.tables@[j].wf(catalog, width)
            }
    }

    /// Builds the tables for the `width`-byte records of `catalog`, or
    /// `None` when there are no records, more than `u32::MAX` of them, or
    /// codes too wide to cut into at most 64 substrings of at most 22 bits.
    pub fn build(catalog: &[u8], width: usize) -> (r: Option<MihIndex>)
        requires
            0 < width,
            catalog@.len() % (width as nat) == 0,
        ensures
            r is Some <==> (1 <= catalog@.len() / (width as nat) <= u32::MAX && 8 * width <= MAX_M
                * MAX_SUB_BITS),
            r matches Some(ix) ==> ix.wf(catalog@, width as int) && ix.params.m == planned_m(
                8 * width,
                catalog@.len() as int / width as int,
            ),
    {
        let n = catalog.len() / width;
        if n == 0 || n > 0xffff_ffffusize {
            return None;
        }
        let bits = match width.checked_mul(8) {
            Some(b) => b,
            None => {
                return None;
            },
        };
        let params = match MihParams::plan(bits, n) {
            Some(p) => p,
            None => {
                return None;
            },
        };
        let mut tables: Vec<BucketTable> = Vec::new();
        let mut j: usize = 0;
        while j < params.m
            invariant
                0 < width,
                catalog@.len() % (width as nat) == 0,
                n == catalog@.len() / (width as nat),
                1 <= n <= u32::MAX,
                bits == 8 * width,
                params.wf(bits as int),
                0 <= j <= params.m,
                tables@.len() == j,
                forall|i: int|
                    0 <= i < j ==> {
                        &&& (#[trigger] tables@[i]).s_bits == params.s_bits@[i]
                        &&& tables@[i].bit_off == params.s_off@[i]
                        &&& tables@[i].wf(catalog@, width as int)
                    },
            decreases params.m - j,
        {
            proof {
                lemma_part_start_bound(params.s_bits@, j as int, params.m as int);
            }
            let t = BucketTable::build(catalog, width, params.s_bits[j], params.s_off[j]);
            tables.push(t);
            j = j + 1;
        }
        Some(MihIndex { params, tables })
    }

    /// Bytes used by the bucket tables (saturating at `usize::MAX`).
    pub fn memory_overhead_bytes(&self, catalog: Ghost<Seq<u8>>, width: Ghost<int>) -> (r: usize)
        requires
            self.wf(catalog@, width@),
            0 < width@,
        ensures
            r == index_bytes(self.params.s_bits@, self.params.m as int, catalog@.len() as int / width@),
    {
        let ghost n = catalog@.len() as int / width@;
        let mut total: usize = 0;
        let mut saturated = false;
        let mut j: usize = 0;
        while j < self.tables.len()
            invariant
                self.wf(catalog@, width@),
                0 <= j <= self.params.m,
                n == catalog@.len() as int / width@,
                saturated ==> tables_bytes(self.params.s_bits@, j as int, n) > usize::MAX,
                !saturated ==> total == tables_bytes(self.params.s_bits@, j as int, n),
                saturated ==> total == usize::MAX,
            decreases self.params.m - j,
        {
            let table = &self.tables[j];
            proof {
                lemma_tables_bytes_monotone(self.params.s_bits@, j as int, n);
                assert(table.wf(catalog@, width@));
                assert(table.offsets@.len() + table.records@.len() == pow2(table.s_bits as nat) + 1 + n);
                lemma_pow2_pos(table.s_bits as nat);
                assert(tables_bytes(self.params.s_bits@, j + 1, n) == tables_bytes(self.params.s_bits@, j as int, n)
                    + 4 * (table.offsets@.len() + table.records@.len()));
            }
            if !saturated {
                let bytes = match table.offsets.len().checked_add(table.records.len()) {
                    Some(len) => len.checked_mul(4),
                    None => None,
                };
                match bytes {
                    Some(b) => match total.checked_add(b) {
                        Some(t) => {
                            total = t;
                        },
                        None => {
                            total = usize::MAX;
                            saturated = true;
                        },
                    },
                    None => {
                        total = usize::MAX;
                        saturated = true;
                    },
                }
            }
            j = j + 1;
        }
        total
    }

    /// The query's value in every substring.
    pub fn query_keys(&self, query: &[u8], catalog: Ghost<Seq<u8>>, width: Ghost<int>) -> (keys: Vec<u32>)
        requires
            self.wf(catalog@, width@),
            query@.len() == width@,
        ensures
            keys@.len() == self.params.m,
            forall|j: int|
                0 <= j < self.params.m ==> #[trigger] keys@[j] == sub_val(
                    query@,
                    self.params.s_off@[j] as int,
                    self.params.s_bits@[j] as int,
                ),
    {
        let mut keys: Vec<u32> = Vec::new();
        let mut j: usize = 0;
        while j < self.tables.len()
            invariant
                self.wf(catalog@, width@),
                query@.len() == width@,
                0 <= j <= self.params.m,
                keys@.len() == j,
                forall|i: int|
                    0 <= i < j ==> #[trigger] keys@[i] == sub_val(
                        query@,
                        self.params.s_off@[i] as int,
                        self.params.s_bits@[i] as int,
                    ),
            decreases self.params.m - j,
        {
            proof {
                lemma_part_start_bound(self.params.s_bits@, j as int, self.params.m as int);
            }
            let table = &self.tables[j];
            keys.push(extract_substring(query, table.bit_off as usize, table.s_bits as usize));
            j = j + 1;
        }
        keys
    }

    /// The records that share a substring within `t` bits of the query's,
    /// all of them and no other, in no particular order and possibly repeated. By pigeonhole this
    /// includes every record within `(t + 1) * m - 1` bits of the query.
    #[verifier::rlimit(40)]
    pub fn candidates(&self, catalog: Ghost<Seq<u8>>, width: Ghost<int>, query: &[u8], t: u32) -> (c: Vec<u32>)
        requires
            self.wf(catalog@, width@),
            0 < width@,
            query@.len() == width@,
            t <= MAX_PROBE_RADIUS,
        ensures
            forall|i: int| 0 <= i < c@.len() ==> (c@[i] as int) < catalog@.len() as int / width@,
            forall|i: int|
                0 <= i < c@.len() ==> shares_part(
                    catalog@,
                    width@,
                    query@,
                    self.params.s_bits@,
                    self.params.m as int,
                    t as int,
                    #[trigger] c@[i] as int,
                ),
            forall|r: int|
                0 <= r < catalog@.len() as int / width@ && (exists|j: int|
                    0 <= j < self.params.m && #[trigger] part_dist(
                        record(catalog@, width@, r),
                        query@,
                        self.params.s_bits@,
                        j,
                    ) <= t) ==> #[trigger] c@.contains(r as u32),
    {
        let ghost n = catalog@.len() as int / width@;
        let subs = self.query_keys(query, catalog, width);
        let mut out: Vec<u32> = Vec::new();
        let mut j: usize = 0;
        while j < self.tables.len()
            invariant
                self.wf(catalog@, width@),
                0 < width@,
                query@.len() == width@,
                t <= MAX_PROBE_RADIUS,
                n == catalog@.len() as int / width@,
                subs@.len() == self.params.m,
                forall|i: int|
                    0 <= i < self.params.m ==> #[trigger] subs@[i] == sub_val(
                        query@,
                        self.params.s_off@[i] as int,
                        self.params.s_bits@[i] as int,
                    ),
                0 <= j <= self.params.m,
                forall|i: int| 0 <= i < out@.len() ==> (out@[i] as int) < n,
                forall|i: int| 0 <= i < out@.len() ==> shares_part(
                    catalog@,
                    width@,
                    query@,
                    self.params.s_bits@,
                    self.params.m as int,
                    t as int,
                    #[trigger] out@[i] as int,
                ),
                forall|r: int|
                    0 <= r < n && (exists|jj: int|
                        0 <= jj < j && #[trigger] part_dist(
                            record(catalog@, width@, r),
                            query@,
                            self.params.s_bits@,
                            jj,
                        ) <= t) ==> #[trigger] out@.contains(r as u32),
            decreases self.params.m - j,
        {
            let table = &self.tables[j];
            let ghost keys = table_keys(catalog@, width@, table.bit_off as int, table.s_bits as int);
            proof {
                lemma_sub_val_bits(query@, table.bit_off as int, table.s_bits as int);
            }
            let neighbors = enumerate_neighbors(subs[j], table.s_bits as u32, t);
            let mut ki: usize = 0;
            while ki < neighbors.len()
                invariant
                    self.wf(catalog@, width@),
                    0 < width@,
                    n == catalog@.len() as int / width@,
                    0 <= j < self.params.m,
                    table == self.tables@[j as int],
                    keys == table_keys(catalog@, width@, table.bit_off as int, table.s_bits as int),
                    forall|i: int| 0 <= i < neighbors@.len() ==> neighbors@[i] < pow2(table.s_bits as nat),
                    forall|i: int|
                        0 <= i < neighbors@.len() ==> #[trigger] key_dist(subs@[j as int], neighbors@[i], table.s_bits as int) <= t,
                    subs@.len() == self.params.m,
                    subs@[j as int] == sub_val(query@, table.bit_off as int, table.s_bits as int),
                    query@.len() == width@,
                    t <= MAX_PROBE_RADIUS,
                    0 <= ki <= neighbors@.len(),
                    forall|i: int| 0 <= i < out@.len() ==> (out@[i] as int) < n,
                    forall|i: int| 0 <= i < out@.len() ==> shares_part(
                    catalog@,
                    width@,
                    query@,
                    self.params.s_bits@,
                    self.params.m as int,
                    t as int,
                    #[trigger] out@[i] as int,
                ),
                    forall|r: int|
                        0 <= r < n && (exists|jj: int|
                            0 <= jj < j && #[trigger] part_dist(
                                record(catalog@, width@, r),
                                query@,
                                self.params.s_bits@,
                                jj,
                            ) <= t) ==> #[trigger] out@.contains(r as u32),
                    forall|r: int|
                        0 <= r < n && neighbors@.subrange(0, ki as int).contains(keys[r] as u32) ==> #[trigger] out@.contains(
                            r as u32,
                        ),
                decreases neighbors@.len() - ki,
            {
                let key = neighbors[ki];
                proof {
                    assert(table.wf(catalog@, width@));
                    assert(key < pow2(table.s_bits as nat));
                    assert(table.offsets@[key as int] <= table.offsets@[key as int + 1]);
                    assert(table.offsets@[key as int + 1] <= n);
                }
                let bucket = table.bucket(key);
                let mut bi: usize = 0;
                while bi < bucket.len()
                    invariant
                        self.wf(catalog@, width@),
                        0 < width@,
                        n == catalog@.len() as int / width@,
                        0 <= j < self.params.m,
                        table == self.tables@[j as int],
                        keys == table_keys(catalog@, width@, table.bit_off as int, table.s_bits as int),
                        key < pow2(table.s_bits as nat),
                        key_dist(subs@[j as int], key, table.s_bits as int) <= t,
                        subs@.len() == self.params.m,
                        subs@[j as int] == sub_val(query@, table.bit_off as int, table.s_bits as int),
                        query@.len() == width@,
                        t <= MAX_PROBE_RADIUS,
                        bucket@ == table.records@.subrange(table.offsets@[key as int] as int, table.offsets@[key + 1] as int),
                        0 <= bi <= bucket@.len(),
                        forall|i: int| 0 <= i < out@.len() ==> (out@[i] as int) < n,
                        forall|i: int| 0 <= i < out@.len() ==> shares_part(
                    catalog@,
                    width@,
                    query@,
                    self.params.s_bits@,
                    self.params.m as int,
                    t as int,
                    #[trigger] out@[i] as int,
                ),
                        forall|i: int| 0 <= i < bi ==> out@.contains(#[trigger] bucket@[i]),
                        forall|r: int|
                            0 <= r < n && (exists|jj: int|
                                0 <= jj < j && #[trigger] part_dist(
                                    record(catalog@, width@, r),
                                    query@,
                                    self.params.s_bits@,
                                    jj,
                                ) <= t) ==> #[trigger] out@.contains(r as u32),
                        forall|r: int|
                            0 <= r < n && neighbors@.subrange(0, ki as int).contains(keys[r] as u32) ==> #[trigger] out@.contains(
                                r as u32,
                            ),
                    decreases bucket@.len() - bi,
                {
                    let ghost before = out@;
                    out.push(bucket[bi]);
                    proof {
                        let x = bucket@[bi as int];
                        assert(out@ == before.push(x));
                        assert(out@[out@.len() - 1] == x);
                        assert(shares_part(
                            catalog@,
                            width@,
                            query@,
                            self.params.s_bits@,
                            self.params.m as int,
                            t as int,
                            x as int,
                        )) by {
                            lemma_bucket_member_shares_part(*self, catalog@, width@, query@, j as int, subs@[j as int], key, table.offsets@[key as int] + bi, t as int);
                        }
                        assert forall|i: int| 0 <= i < out@.len() implies shares_part(
                        catalog@,
                        width@,
                        query@,
                        self.params.s_bits@,
                        self.params.m as int,
                        t as int,
                        #[trigger] out@[i] as int,
                ) by {
                            if i < before.len() {
                                assert(out@[i] == before[i]);
                            }
                        }
                        assert forall|i: int| 0 <= i < bi + 1 implies out@.contains(#[trigger] bucket@[i]) by {
                            if i < bi {
                                lemma_push_keeps(before, x, bucket@[i]);
                            }
                        }
                        assert forall|r: int|
                            0 <= r < n && (exists|jj: int|
                                0 <= jj < j && #[trigger] part_dist(
                                    record(catalog@, width@, r),
                                    query@,
                                    self.params.s_bits@,
                                    jj,
                                ) <= t) implies #[trigger] out@.contains(r as u32) by {
                            lemma_push_keeps(before, x, r as u32);
                        }
                        assert forall|r: int|
                            0 <= r < n && neighbors@.subrange(0, ki as int).contains(keys[r] as u32) implies #[trigger] out@.contains(
                                r as u32,
                            ) by {
                            lemma_push_keeps(before, x, r as u32);
                        }
                        assert(table.records@[table.offsets@[key as int] + bi] < n);
                    }
                    bi = bi + 1;
                }
                proof {
                    assert forall|r: int|
                        0 <= r < n && neighbors@.subrange(0, ki + 1).contains(keys[r] as u32) implies #[trigger] out@.contains(
                            r as u32,
                        ) by {
                        let i = choose|i: int| 0 <= i < ki + 1 && #[trigger] neighbors@.subrange(0, ki + 1)[i] == keys[r] as u32;
                        if i == ki {
                            lemma_sub_val_bits(record(catalog@, width@, r), table.bit_off as int, table.s_bits as int);
                            vstd::arithmetic::power2::lemma_pow2_strictly_increases(table.s_bits as nat, 23);
                            vstd::arithmetic::power2::lemma2_to64();
                            assert(keys[r] == key as nat);
                            assert(table.listed(keys[r] as int, r));
                            let slot = choose|slot: int|
                                table.offsets@[keys[r] as int] <= slot < table.offsets@[keys[r] as int + 1] && #[trigger] table.records@[slot] == r;
                            assert(bucket@[slot - table.offsets@[key as int]] == table.records@[slot]);
                        } else {
                            assert(neighbors@.subrange(0, ki as int)[i] == keys[r] as u32);
                        }
                    }
                }
                ki = ki + 1;
            }
            proof {
                assert forall|r: int|
                    0 <= r < n && (exists|jj: int|
                        0 <= jj < j + 1 && #[trigger] part_dist(
                            record(catalog@, width@, r),
                            query@,
                            self.params.s_bits@,
                            jj,
                        ) <= t) implies #[trigger] out@.contains(r as u32) by {
                    let jj = choose|jj: int|
                        0 <= jj < j + 1 && #[trigger] part_dist(
                            record(catalog@, width@, r),
                            query@,
                            self.params.s_bits@,
                            jj,
                        ) <= t;
                    if jj == j {
                        let rec = record(catalog@, width@, r);
                        let off = table.bit_off as int;
                        let sb = table.s_bits as int;
                        lemma_sub_val_dist(rec, query@, off, sb);
                        lemma_sub_val_bits(rec, off, sb);
                        lemma_diff_count_symmetric(sub_val(rec, off, sb) as u32, sub_val(query@, off, sb) as u32, 0, sb);
                        assert(keys[r] == sub_val(rec, off, sb));
                        assert(neighbors@.contains(keys[r] as u32));
                        let i = choose|i: int| 0 <= i < neighbors@.len() && neighbors@[i] == keys[r] as u32;
                        assert(neighbors@.subrange(0, neighbors@.len() as int)[i] == keys[r] as u32);
                    }
                }
            }
            j = j + 1;
        }
        out
    }
}

proof fn lemma_push_keeps(s: Seq<u32>, x: u32, y: u32)
    requires
        s.contains(y),
    ensures
        s.push(x).contains(y),
{
    let w = choose|w: int| 0 <= w < s.len() && s[w] == y;
    assert(s.push(x)[w] == y);
}

proof fn lemma_part_start_bound(s_bits: Seq<u8>, j: int, m: int)
    requires
        0 <= j < m,
    ensures
        part_start(s_bits, j) + s_bits[j] <= part_start(s_bits, m),
        0 <= part_start(s_bits, j),
    decreases m - j,
{
    if j + 1 < m {
        lemma_part_start_bound(s_bits, j + 1, m);
    }
    lemma_part_start_nonneg(s_bits, j);
}

proof fn lemma_part_start_nonneg(s_bits: Seq<u8>, j: int)
    ensures
        0 <= part_start(s_bits, j),
    decreases j,
{
    if j > 0 {
        lemma_part_start_nonneg(s_bits, j - 1);
    }
}

proof fn lemma_tables_bytes_monotone(s_bits: Seq<u8>, k: int, n: int)
    requires
        0 <= n,
    ensures
        0 <= tables_bytes(s_bits, k, n),
    decreases k,
{
    if k > 0 {
        lemma_tables_bytes_monotone(s_bits, k - 1, n);
        lemma_pow2_pos(s_bits[k - 1] as nat);
    }
}

// Planner cost model, in units of 1e-4 ns per query. The constants are fitted
// to a sweep of probe radii 0..=4 on 8/16/32-byte catalogs of 10k-1M records:
// a bucket probe, including verifying its ~N/2^s records, costs 1.2-5.6 ns,
// rising with index size as probes miss cache and TLB. A linear scan costs
// about 0.11 ns per record or 0.0133 ns per byte, whichever is larger; split
// across threads it runs about 1.4x faster at 512 KiB, 2.5x at 1 MiB and
// 4-6x from 2 MiB (modelled as up to 4x). Slower linear scans elsewhere only
// make the planner more conservative.
pub const QUERY_OVERHEAD_COST: u128 = 500000;
pub const PROBE_BASE_COST: u128 = 15000;
pub const PROBE_CACHE_MISS_COST: u128 = 40000;
pub const PROBE_MISS_SATURATION_BYTES: u128 = 134217728;
pub const SCAN_COST_PER_RECORD: u128 = 1100;
pub const SCAN_COST_PER_BYTE: u128 = 133;
pub const PARALLEL_SPEEDUP_BYTES: u128 = 409600;
pub const MAX_PARALLEL_SPEEDUP: u128 = 4;

/// Number of ways to choose `k` of `n` positions.
pub open spec fn binomial(n: nat, k: nat) -> nat
    decreases n,
{
    if k == 0 {
        1
    } else if n == 0 {
        0
    } else {
        binomial((n - 1) as nat, (k - 1) as nat) + binomial((n - 1) as nat, k)
    }
}

/// Number of `s`-bit keys within `t` bits of a given key.
pub open spec fn ball_size(s: nat, t: nat) -> nat
    decreases t,
{
    if t == 0 {
        1
    } else {
        ball_size(s, (t - 1) as nat) + binomial(s, t)
    }
}

/// Keys probed per query at radius `t` in the first `k` tables.
pub open spec fn probe_count(s_bits: Seq<u8>, k: int, t: nat) -> nat
    decreases k,
{
    if k <= 0 {
        0
    } else {
        probe_count(s_bits, k - 1, t) + ball_size(s_bits[k - 1] as nat, t)
    }
}

/// Estimated cost of one indexed query at radius `t`, times
/// `PROBE_MISS_SATURATION_BYTES`: the share of probes that miss the cache
/// grows with the index size `mem` until it saturates.
pub open spec fn query_cost_scaled(s_bits: Seq<u8>, m: int, t: nat, mem: int) -> int {
    let miss = if mem < PROBE_MISS_SATURATION_BYTES {
        mem
    } else {
        PROBE_MISS_SATURATION_BYTES as int
    };
    QUERY_OVERHEAD_COST * PROBE_MISS_SATURATION_BYTES + probe_count(s_bits, m, t) * (
    PROBE_BASE_COST * PROBE_MISS_SATURATION_BYTES + PROBE_CACHE_MISS_COST * miss)
}

/// Bytes a linear scan reads (saturating at `usize::MAX`).
pub open spec fn scan_bytes(n: int, width: int) -> int {
    if n * width <= usize::MAX {
        n * width
    } else {
        usize::MAX as int
    }
}

/// Estimated cost of a serial linear scan.
pub open spec fn serial_scan_cost(n: int, width: int) -> int {
    let by_records = n * SCAN_COST_PER_RECORD;
    let by_bytes = scan_bytes(n, width) * SCAN_COST_PER_BYTE;
    if by_records < by_bytes {
        by_bytes
    } else {
        by_records
    }
}

/// The linear scan costs `serial_scan_cost * PARALLEL_SPEEDUP_BYTES /
/// scan_divisor`: scans large enough to be split run up to four times faster.
pub open spec fn scan_divisor(n: int, width: int, threshold: int) -> int {
    let bytes = scan_bytes(n, width);
    if bytes >= threshold {
        if bytes < PARALLEL_SPEEDUP_BYTES {
            PARALLEL_SPEEDUP_BYTES as int
        } else if bytes > PARALLEL_SPEEDUP_BYTES * MAX_PARALLEL_SPEEDUP {
            (PARALLEL_SPEEDUP_BYTES * MAX_PARALLEL_SPEEDUP) as int
        } else {
            bytes
        }
    } else {
        PARALLEL_SPEEDUP_BYTES as int
    }
}

/// Probing at radius `t` is estimated to beat a linear scan.
pub open spec fn index_pays(
    s_bits: Seq<u8>,
    m: int,
    t: nat,
    mem: int,
    n: int,
    width: int,
    threshold: int,
) -> bool {
    query_cost_scaled(s_bits, m, t, mem) * scan_divisor(n, width, threshold) < serial_scan_cost(
        n,
        width,
    ) * PARALLEL_SPEEDUP_BYTES * PROBE_MISS_SATURATION_BYTES
}

proof fn lemma_binomial_le(n: nat, k: nat)
    ensures
        binomial(n, k) <= pow2(n),
    decreases n,
{
    if k == 0 {
        lemma_pow2_pos(n);
    } else if n == 0 {
    } else {
        lemma_binomial_le((n - 1) as nat, (k - 1) as nat);
        lemma_binomial_le((n - 1) as nat, k);
        lemma_pow2_unfold(n);
    }
}

proof fn lemma_ball_size_le(s: nat, t: nat)
    ensures
        ball_size(s, t) <= (t + 1) * pow2(s),
    decreases t,
{
    lemma_pow2_pos(s);
    if t > 0 {
        lemma_ball_size_le(s, (t - 1) as nat);
        lemma_binomial_le(s, t);
        assert((t + 1) * pow2(s) == t * pow2(s) + pow2(s)) by (nonlinear_arith);
    } else {
        assert(1 * pow2(s) == pow2(s)) by (nonlinear_arith);
    }
}

/// Number of `s`-bit keys within `t` bits of a key, by Pascal's triangle.
pub fn ball_size_exec(s: u32, t: u32) -> (r: u64)
    requires
        s <= MAX_SUB_BITS,
        t <= MAX_PROBE_RADIUS,
    ensures
        r == ball_size(s as nat, t as nat),
{
    // row[i] == binomial(x, i) for i <= t
    let mut row: Vec<u64> = Vec::new();
    let mut i: u32 = 0;
    while i <= t
        invariant
            t <= MAX_PROBE_RADIUS,
            i <= t + 1,
            row@.len() == i,
            forall|k: int| 0 <= k < i ==> #[trigger] row@[k] == binomial(0, k as nat),
        decreases t + 1 - i,
    {
        row.push(if i == 0 {
            1u64
        } else {
            0u64
        });
        i = i + 1;
    }
    let mut x: u32 = 0;
    proof {
        vstd::arithmetic::power2::lemma2_to64();
    }
    while x < s
        invariant
            s <= MAX_SUB_BITS,
            t <= MAX_PROBE_RADIUS,
            x <= s,
            row@.len() == t + 1,
            forall|k: int| 0 <= k <= t ==> #[trigger] row@[k] == binomial(x as nat, k as nat),
            pow2(22) == 0x400000,
        decreases s - x,
    {
        let mut k: u32 = t;
        while k > 0
            invariant
                s <= MAX_SUB_BITS,
                x < s,
                k <= t <= MAX_PROBE_RADIUS,
                row@.len() == t + 1,
                pow2(22) == 0x400000,
                forall|q: int| 0 <= q <= k ==> #[trigger] row@[q] == binomial(x as nat, q as nat),
                forall|q: int| k < q <= t ==> #[trigger] row@[q] == binomial((x + 1) as nat, q as nat),
            decreases k,
        {
            proof {
                lemma_binomial_le(x as nat, k as nat);
                lemma_binomial_le(x as nat, (k - 1) as nat);
                vstd::arithmetic::power2::lemma_pow2_strictly_increases(x as nat, 22);
            }
            let v = row[k as usize] + row[(k - 1) as usize];
            row.set(k as usize, v);
            k = k - 1;
        }
        x = x + 1;
    }
    let mut total: u64 = 0;
    let mut i: u32 = 0;
    while i <= t
        invariant
            s <= MAX_SUB_BITS,
            t <= MAX_PROBE_RADIUS,
            i <= t + 1,
            row@.len() == t + 1,
            forall|k: int| 0 <= k <= t ==> #[trigger] row@[k] == binomial(s as nat, k as nat),
            i > 0 ==> total == ball_size(s as nat, (i - 1) as nat),
            i == 0 ==> total == 0,
            pow2(22) == 0x400000,
        decreases t + 1 - i,
    {
        proof {
            lemma_ball_size_le(s as nat, i as nat);
            if s < 22 {
                vstd::arithmetic::power2::lemma_pow2_strictly_increases(s as nat, 22);
            }
            assert(ball_size(s as nat, i as nat) == total + row@[i as int]);
            assert((i + 1) * pow2(s as nat) <= 5 * 0x400000) by (nonlinear_arith)
                requires
                    i <= 4,
                    pow2(s as nat) <= 0x400000,
            ;
        }
        total = total + row[i as usize];
        i = i + 1;
    }
    total
}

proof fn lemma_probe_count_le(s_bits: Seq<u8>, k: int, t: nat)
    requires
        0 <= k <= s_bits.len(),
        t <= MAX_PROBE_RADIUS,
        forall|j: int| 0 <= j < k ==> #[trigger] s_bits[j] <= MAX_SUB_BITS,
    ensures
        probe_count(s_bits, k, t) <= k * 0x1400000,
    decreases k,
{
    if k > 0 {
        lemma_probe_count_le(s_bits, k - 1, t);
        let s = s_bits[k - 1] as nat;
        lemma_ball_size_le(s, t);
        vstd::arithmetic::power2::lemma2_to64();
        if s < 22 {
            vstd::arithmetic::power2::lemma_pow2_strictly_increases(s, 22);
        }
        assert((t + 1) * pow2(s) <= 0x1400000) by (nonlinear_arith)
            requires
                t <= 4,
                pow2(s) <= 0x400000,
        ;
        assert(k * 0x1400000 == (k - 1) * 0x1400000 + 0x1400000) by (nonlinear_arith);
    }
}

/// The probe radius a query with threshold `max_dist` would use, or `None`
/// when a linear scan is expected to be at least as fast (or the threshold
/// accepts everything, or the radius exceeds the supported one).
pub open spec fn planned_radius(
    s_bits: Seq<u8>,
    m: int,
    mem: int,
    max_dist: i64,
    n: int,
    width: int,
    threshold: int,
) -> Option<u32> {
    if max_dist < 0 {
        None
    } else if max_dist as int / m > MAX_PROBE_RADIUS {
        None
    } else if index_pays(s_bits, m, (max_dist as int / m) as nat, mem, n, width, threshold) {
        Some((max_dist as int / m) as u32)
    } else {
        None
    }
}

/// Estimated cost of a serial linear scan of `n` records of `width` bytes.
pub fn serial_scan_cost_exec(n: usize, width: usize) -> (r: u128)
    ensures
        r == serial_scan_cost(n as int, width as int),
{
    let bytes: usize = match n.checked_mul(width) {
        Some(b) => b,
        None => usize::MAX,
    };
    let by_records = (n as u128) * SCAN_COST_PER_RECORD;
    let by_bytes = (bytes as u128) * SCAN_COST_PER_BYTE;
    if by_records < by_bytes {
        by_bytes
    } else {
        by_records
    }
}

/// Divisor for the speedup of a split linear scan.
pub fn scan_divisor_exec(n: usize, width: usize, threshold: usize) -> (r: u128)
    ensures
        r == scan_divisor(n as int, width as int, threshold as int),
{
    let bytes: usize = match n.checked_mul(width) {
        Some(b) => b,
        None => usize::MAX,
    };
    let b = bytes as u128;
    if bytes >= threshold {
        if b < PARALLEL_SPEEDUP_BYTES {
            PARALLEL_SPEEDUP_BYTES
        } else if b > PARALLEL_SPEEDUP_BYTES * MAX_PARALLEL_SPEEDUP {
            PARALLEL_SPEEDUP_BYTES * MAX_PARALLEL_SPEEDUP
        } else {
            b
        }
    } else {
        PARALLEL_SPEEDUP_BYTES
    }
}

impl MihIndex {
    /// Estimated cost of one query probing every table at radius `t`,
    /// times `PROBE_MISS_SATURATION_BYTES`, for an index of `mem` bytes.
    pub fn query_cost_scaled(&self, t: u32, mem: usize, catalog: Ghost<Seq<u8>>, width: Ghost<int>) -> (r: u128)
        requires
            self.wf(catalog@, width@),
            t <= MAX_PROBE_RADIUS,
        ensures
            r == query_cost_scaled(self.params.s_bits@, self.params.m as int, t as nat, mem as int),
    {
        let mut probes: u64 = 0;
        let mut j: usize = 0;
        while j < self.tables.len()
            invariant
                self.wf(catalog@, width@),
                t <= MAX_PROBE_RADIUS,
                0 <= j <= self.params.m,
                probes == probe_count(self.params.s_bits@, j as int, t as nat),
            decreases self.params.m - j,
        {
            proof {
                lemma_probe_count_le(self.params.s_bits@, j + 1, t as nat);
                assert((j + 1) * 0x1400000 <= 64 * 0x1400000) by (nonlinear_arith)
                    requires
                        j < 64,
                ;
            }
            let b = ball_size_exec(self.tables[j].s_bits as u32, t);
            probes = probes + b;
            j = j + 1;
        }
        proof {
            lemma_probe_count_le(self.params.s_bits@, self.params.m as int, t as nat);
            assert(self.params.m * 0x1400000 <= 64 * 0x1400000) by (nonlinear_arith)
                requires
                    self.params.m <= 64,
            ;
        }
        let m = mem as u128;
        let miss = if m < PROBE_MISS_SATURATION_BYTES {
            m
        } else {
            PROBE_MISS_SATURATION_BYTES
        };
        let per_probe = PROBE_BASE_COST * PROBE_MISS_SATURATION_BYTES + PROBE_CACHE_MISS_COST * miss;
        let p = probes as u128;
        proof {
            assert(p * per_probe <= 0x1400000 * 64 * 7381975040000u128) by (nonlinear_arith)
                requires
                    p <= 0x1400000 * 64,
                    per_probe <= 7381975040000u128,
            ;
        }
        let variable = p * per_probe;
        QUERY_OVERHEAD_COST * PROBE_MISS_SATURATION_BYTES + variable
    }

    /// Probe radius to use for `max_dist` over `n` records of `width` bytes,
    /// for an index of `mem` bytes and a scan that is split from `threshold`
    /// bytes on, or `None` when a linear scan is expected to be at least as
    /// fast. Records within `max_dist` differ from the query by at most
    /// `max_dist / m` bits in some substring (pigeonhole), so that radius
    /// finds all of them.
    pub fn probe_radius(
        &self,
        max_dist: i64,
        n: usize,
        width: usize,
        mem: usize,
        threshold: usize,
        catalog: Ghost<Seq<u8>>,
        cwidth: Ghost<int>,
    ) -> (r: Option<u32>)
        requires
            self.wf(catalog@, cwidth@),
        ensures
            r == planned_radius(
                self.params.s_bits@,
                self.params.m as int,
                mem as int,
                max_dist,
                n as int,
                width as int,
                threshold as int,
            ),
    {
        if max_dist < 0 {
            return None;
        }
        let t = (max_dist as u64) / (self.params.m as u64);
        if t > MAX_PROBE_RADIUS as u64 {
            return None;
        }
        let t = t as u32;
        let query = self.query_cost_scaled(t, mem, catalog, cwidth);
        let serial = serial_scan_cost_exec(n, width);
        let divisor = scan_divisor_exec(n, width, threshold);
        proof {
            assert(query <= 0x1400000 * 64 * (PROBE_BASE_COST * PROBE_MISS_SATURATION_BYTES
                + PROBE_CACHE_MISS_COST * PROBE_MISS_SATURATION_BYTES) + QUERY_OVERHEAD_COST
                * PROBE_MISS_SATURATION_BYTES) by {
                lemma_probe_count_le(self.params.s_bits@, self.params.m as int, t as nat);
                assert(self.params.m * 0x1400000 <= 64 * 0x1400000) by (nonlinear_arith)
                    requires
                        self.params.m <= 64,
                ;
                let miss: int = if mem < PROBE_MISS_SATURATION_BYTES {
                    mem as int
                } else {
                    PROBE_MISS_SATURATION_BYTES as int
                };
                assert(probe_count(self.params.s_bits@, self.params.m as int, t as nat) * (
                PROBE_BASE_COST * PROBE_MISS_SATURATION_BYTES + PROBE_CACHE_MISS_COST * miss)
                    <= 0x1400000 * 64 * (PROBE_BASE_COST * PROBE_MISS_SATURATION_BYTES
                    + PROBE_CACHE_MISS_COST * PROBE_MISS_SATURATION_BYTES)) by (nonlinear_arith)
                    requires
                        probe_count(self.params.s_bits@, self.params.m as int, t as nat) <= 0x1400000
                            * 64,
                        0 <= miss <= PROBE_MISS_SATURATION_BYTES,
                ;
            }
            assert(divisor <= PARALLEL_SPEEDUP_BYTES * MAX_PARALLEL_SPEEDUP);
            assert(serial <= (usize::MAX as int) * SCAN_COST_PER_RECORD + (usize::MAX as int)
                * SCAN_COST_PER_BYTE) by (nonlinear_arith)
                requires
                    serial == serial_scan_cost(n as int, width as int),
                    n <= usize::MAX,
                    scan_bytes(n as int, width as int) <= usize::MAX,
                    0 <= scan_bytes(n as int, width as int),
            {
            }
            assert(query * divisor <= (0x1400000 * 64 * (PROBE_BASE_COST * PROBE_MISS_SATURATION_BYTES
                + PROBE_CACHE_MISS_COST * PROBE_MISS_SATURATION_BYTES) + QUERY_OVERHEAD_COST
                * PROBE_MISS_SATURATION_BYTES) * (PARALLEL_SPEEDUP_BYTES * MAX_PARALLEL_SPEEDUP))
                by (nonlinear_arith)
                requires
                    query <= 0x1400000 * 64 * (PROBE_BASE_COST * PROBE_MISS_SATURATION_BYTES
                        + PROBE_CACHE_MISS_COST * PROBE_MISS_SATURATION_BYTES) + QUERY_OVERHEAD_COST
                        * PROBE_MISS_SATURATION_BYTES,
                    divisor <= PARALLEL_SPEEDUP_BYTES * MAX_PARALLEL_SPEEDUP,
            ;
            assert(serial * PARALLEL_SPEEDUP_BYTES * PROBE_MISS_SATURATION_BYTES <= ((usize::MAX as int)
                * SCAN_COST_PER_RECORD + (usize::MAX as int) * SCAN_COST_PER_BYTE)
                * PARALLEL_SPEEDUP_BYTES * PROBE_MISS_SATURATION_BYTES) by (nonlinear_arith)
                requires
                    serial <= (usize::MAX as int) * SCAN_COST_PER_RECORD + (usize::MAX as int)
                        * SCAN_COST_PER_BYTE,
            ;
            assert(usize::MAX <= u64::MAX);
        }
        if query * divisor < serial * PARALLEL_SPEEDUP_BYTES * PROBE_MISS_SATURATION_BYTES {
            Some(t)
        } else {
            None
        }
    }
}

/// Entries that name the same index are equal.
pub open spec fn index_determines(s: Seq<(u64, usize)>) -> bool {
    forall|i: int, j: int|
        0 <= i < s.len() && 0 <= j < s.len() && (#[trigger] s[i]).1 == (#[trigger] s[j]).1 ==> s[i]
            == s[j]
}

proof fn lemma_contains_push(s: Seq<(u64, usize)>, v: (u64, usize), x: (u64, usize))
    ensures
        s.push(v).contains(x) <==> (s.contains(x) || x == v),
{
    if s.contains(x) {
        let w = choose|w: int| 0 <= w < s.len() && s[w] == x;
        assert(s.push(v)[w] == x);
    }
    if x == v {
        assert(s.push(v)[s.len() as int] == x);
    }
    if s.push(v).contains(x) && x != v {
        let w = choose|w: int| 0 <= w < s.push(v).len() && s.push(v)[w] == x;
        assert(s[w] == x);
    }
}

proof fn lemma_contains_prefix_step(s: Seq<(u64, usize)>, i: int, x: (u64, usize))
    requires
        0 <= i < s.len(),
    ensures
        s.subrange(0, i + 1).contains(x) <==> (s.subrange(0, i).contains(x) || x == s[i]),
{
    assert(s.subrange(0, i + 1) =~= s.subrange(0, i).push(s[i]));
    lemma_contains_push(s.subrange(0, i), s[i], x);
}

/// Merges two lists that are strictly increasing by index into one, keeping
/// one entry per index.
fn merge_dedup(a: &Vec<(u64, usize)>, b: &Vec<(u64, usize)>) -> (r: Vec<(u64, usize)>)
    requires
        strictly_by_index(a@),
        strictly_by_index(b@),
        index_determines(a@ + b@),
    ensures
        strictly_by_index(r@),
        forall|x: (u64, usize)| r@.contains(x) <==> (a@.contains(x) || b@.contains(x)),
{
    let mut out: Vec<(u64, usize)> = Vec::new();
    let mut i: usize = 0;
    let mut j: usize = 0;
    proof {
        assert forall|x: (u64, usize)| out@.contains(x) <==> (a@.subrange(0, 0).contains(x) || b@.subrange(0, 0).contains(x)) by {}
    }
    while i < a.len() || j < b.len()
        invariant
            strictly_by_index(a@),
            strictly_by_index(b@),
            index_determines(a@ + b@),
            0 <= i <= a@.len(),
            0 <= j <= b@.len(),
            strictly_by_index(out@),
            out@.len() > 0 && i < a@.len() ==> out@[out@.len() - 1].1 < a@[i as int].1,
            out@.len() > 0 && j < b@.len() ==> out@[out@.len() - 1].1 < b@[j as int].1,
            forall|x: (u64, usize)|
                out@.contains(x) <==> (a@.subrange(0, i as int).contains(x) || b@.subrange(0, j as int).contains(x)),
        decreases a@.len() + b@.len() - i - j,
    {
        let ghost before = out@;
        if j == b.len() || (i < a.len() && a[i].1 < b[j].1) {
            let v = a[i];
            out.push(v);
            proof {
                assert forall|x: (u64, usize)|
                    out@.contains(x) <==> (a@.subrange(0, i + 1).contains(x) || b@.subrange(0, j as int).contains(x)) by {
                    lemma_contains_push(before, v, x);
                    lemma_contains_prefix_step(a@, i as int, x);
                }
                if i + 1 < a@.len() {
                    assert(a@[i as int].1 < a@[i + 1].1);
                }
            }
            i = i + 1;
        } else if i == a.len() || b[j].1 < a[i].1 {
            let v = b[j];
            out.push(v);
            proof {
                assert forall|x: (u64, usize)|
                    out@.contains(x) <==> (a@.subrange(0, i as int).contains(x) || b@.subrange(0, j + 1).contains(x)) by {
                    lemma_contains_push(before, v, x);
                    lemma_contains_prefix_step(b@, j as int, x);
                }
                if j + 1 < b@.len() {
                    assert(b@[j as int].1 < b@[j + 1].1);
                }
            }
            j = j + 1;
        } else {
            let v = a[i];
            proof {
                let ab = a@ + b@;
                assert(ab[i as int] == a@[i as int]);
                assert(ab[a@.len() + j] == b@[j as int]);
                assert(a@[i as int] == b@[j as int]);
            }
            out.push(v);
            proof {
                assert forall|x: (u64, usize)|
                    out@.contains(x) <==> (a@.subrange(0, i + 1).contains(x) || b@.subrange(0, j + 1).contains(x)) by {
                    lemma_contains_push(before, v, x);
                    lemma_contains_prefix_step(a@, i as int, x);
                    lemma_contains_prefix_step(b@, j as int, x);
                }
                if i + 1 < a@.len() {
                    assert(a@[i as int].1 < a@[i + 1].1);
                }
                if j + 1 < b@.len() {
                    assert(b@[j as int].1 < b@[j + 1].1);
                }
            }
            i = i + 1;
            j = j + 1;
        }
    }
    proof {
        assert(a@.subrange(0, a@.len() as int) =~= a@);
        assert(b@.subrange(0, b@.len() as int) =~= b@);
    }
    out
}

/// Sorts entries by index, keeping one entry per index (entries that name
/// the same index are equal).
pub fn sort_dedup_by_index(v: &[(u64, usize)]) -> (r: Vec<(u64, usize)>)
    requires
        index_determines(v@),
    ensures
        strictly_by_index(r@),
        forall|x: (u64, usize)| r@.contains(x) <==> v@.contains(x),
    decreases v@.len(),
{
    if v.len() <= 1 {
        return vstd::slice::slice_to_vec(v);
    }
    let mid = v.len() / 2;
    let lo = vstd::slice::slice_subrange(v, 0, mid);
    let hi = vstd::slice::slice_subrange(v, mid, v.len());
    proof {
        assert forall|x: (u64, usize)| lo@.contains(x) implies v@.contains(x) by {
            let w = choose|w: int| 0 <= w < lo@.len() && lo@[w] == x;
            assert(v@[w] == x);
        }
        assert forall|x: (u64, usize)| hi@.contains(x) implies v@.contains(x) by {
            let w = choose|w: int| 0 <= w < hi@.len() && hi@[w] == x;
            assert(v@[mid + w] == x);
        }
        assert(index_determines(lo@)) by {
            assert forall|i: int, j: int|
                0 <= i < lo@.len() && 0 <= j < lo@.len() && (#[trigger] lo@[i]).1 == (#[trigger] lo@[j]).1 implies lo@[i] == lo@[j] by {
                assert(lo@[i] == v@[i] && lo@[j] == v@[j]);
            }
        }
        assert(index_determines(hi@)) by {
            assert forall|i: int, j: int|
                0 <= i < hi@.len() && 0 <= j < hi@.len() && (#[trigger] hi@[i]).1 == (#[trigger] hi@[j]).1 implies hi@[i] == hi@[j] by {
                assert(hi@[i] == v@[mid + i] && hi@[j] == v@[mid + j]);
            }
        }
    }
    let left = sort_dedup_by_index(lo);
    let right = sort_dedup_by_index(hi);
    proof {
        let ab = left@ + right@;
        assert forall|i: int| 0 <= i < ab.len() implies v@.contains(#[trigger] ab[i]) by {
            if i < left@.len() {
                assert(left@.contains(ab[i]));
            } else {
                assert(right@[i - left@.len()] == ab[i]);
                assert(right@.contains(ab[i]));
            }
        }
        assert forall|i: int, j: int|
            0 <= i < ab.len() && 0 <= j < ab.len() && (#[trigger] ab[i]).1 == (#[trigger] ab[j]).1 implies ab[i] == ab[j] by {
            assert(v@.contains(ab[i]));
            assert(v@.contains(ab[j]));
            let wi = choose|w: int| 0 <= w < v@.len() && v@[w] == ab[i];
            let wj = choose|w: int| 0 <= w < v@.len() && v@[w] == ab[j];
            assert(v@[wi].1 == v@[wj].1);
        }
        assert forall|x: (u64, usize)| v@.contains(x) implies lo@.contains(x) || hi@.contains(x) by {
            let w = choose|w: int| 0 <= w < v@.len() && v@[w] == x;
            if w < mid {
                assert(lo@[w] == x);
            } else {
                assert(hi@[w - mid] == x);
            }
        }
    }
    merge_dedup(&left, &right)
}

} // verus!
