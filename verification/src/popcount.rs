//! Population counts of bytes and 64-bit words.

use vstd::prelude::*;

verus! {

/// Bit `i` of `x` (0 or 1).
pub open spec fn bit64(x: u64, i: u64) -> u64 {
    (x >> i) & 1
}

/// Number of one bits in a byte.
pub open spec fn popcount8(x: u8) -> nat {
    (((x & 1) + ((x >> 1u8) & 1) + ((x >> 2u8) & 1) + ((x >> 3u8) & 1) + ((x >> 4u8) & 1) + ((x
        >> 5u8) & 1) + ((x >> 6u8) & 1) + ((x >> 7u8) & 1)) as nat)
}

/// Byte `k` (little-endian position) of a 64-bit word.
pub open spec fn byte_of(x: u64, k: u64) -> u8 {
    ((x >> (8 * k)) & 0xff) as u8
}

/// Number of one bits in a 64-bit word, counted byte by byte.
pub open spec fn popcount64(x: u64) -> nat {
    popcount8(byte_of(x, 0)) + popcount8(byte_of(x, 1)) + popcount8(byte_of(x, 2)) + popcount8(
        byte_of(x, 3),
    ) + popcount8(byte_of(x, 4)) + popcount8(byte_of(x, 5)) + popcount8(byte_of(x, 6))
        + popcount8(byte_of(x, 7))
}

/// A byte has at most eight one bits.
pub proof fn lemma_popcount8_le(b: u8)
    ensures
        popcount8(b) <= 8,
{
    assert(popcount8(b) <= 8) by (bit_vector);
}

proof fn lemma_swar_bytes(x: u64, x1: u64, x2: u64, x3: u64)
    requires
        x1 == x - ((x >> 1u64) & 0x5555555555555555u64),
        x2 == (x1 & 0x3333333333333333u64) + ((x1 >> 2u64) & 0x3333333333333333u64),
        x3 == ((x2 + (x2 >> 4u64)) as u64) & 0x0F0F0F0F0F0F0F0Fu64,
    ensures
        byte_of(x3, 0) == popcount8(byte_of(x, 0)),
        byte_of(x3, 1) == popcount8(byte_of(x, 1)),
        byte_of(x3, 2) == popcount8(byte_of(x, 2)),
        byte_of(x3, 3) == popcount8(byte_of(x, 3)),
        byte_of(x3, 4) == popcount8(byte_of(x, 4)),
        byte_of(x3, 5) == popcount8(byte_of(x, 5)),
        byte_of(x3, 6) == popcount8(byte_of(x, 6)),
        byte_of(x3, 7) == popcount8(byte_of(x, 7)),
{
    assert(byte_of(x3, 0) == popcount8(byte_of(x, 0))) by (bit_vector)
        requires
            x1 == x - ((x >> 1u64) & 0x5555555555555555u64),
            x2 == (x1 & 0x3333333333333333u64) + ((x1 >> 2u64) & 0x3333333333333333u64),
            x3 == ((x2 + (x2 >> 4u64)) as u64) & 0x0F0F0F0F0F0F0F0Fu64,
    ;
    assert(byte_of(x3, 1) == popcount8(byte_of(x, 1))) by (bit_vector)
        requires
            x1 == x - ((x >> 1u64) & 0x5555555555555555u64),
            x2 == (x1 & 0x3333333333333333u64) + ((x1 >> 2u64) & 0x3333333333333333u64),
            x3 == ((x2 + (x2 >> 4u64)) as u64) & 0x0F0F0F0F0F0F0F0Fu64,
    ;
    assert(byte_of(x3, 2) == popcount8(byte_of(x, 2))) by (bit_vector)
        requires
            x1 == x - ((x >> 1u64) & 0x5555555555555555u64),
            x2 == (x1 & 0x3333333333333333u64) + ((x1 >> 2u64) & 0x3333333333333333u64),
            x3 == ((x2 + (x2 >> 4u64)) as u64) & 0x0F0F0F0F0F0F0F0Fu64,
    ;
    assert(byte_of(x3, 3) == popcount8(byte_of(x, 3))) by (bit_vector)
        requires
            x1 == x - ((x >> 1u64) & 0x5555555555555555u64),
            x2 == (x1 & 0x3333333333333333u64) + ((x1 >> 2u64) & 0x3333333333333333u64),
            x3 == ((x2 + (x2 >> 4u64)) as u64) & 0x0F0F0F0F0F0F0F0Fu64,
    ;
    assert(byte_of(x3, 4) == popcount8(byte_of(x, 4))) by (bit_vector)
        requires
            x1 == x - ((x >> 1u64) & 0x5555555555555555u64),
            x2 == (x1 & 0x3333333333333333u64) + ((x1 >> 2u64) & 0x3333333333333333u64),
            x3 == ((x2 + (x2 >> 4u64)) as u64) & 0x0F0F0F0F0F0F0F0Fu64,
    ;
    assert(byte_of(x3, 5) == popcount8(byte_of(x, 5))) by (bit_vector)
        requires
            x1 == x - ((x >> 1u64) & 0x5555555555555555u64),
            x2 == (x1 & 0x3333333333333333u64) + ((x1 >> 2u64) & 0x3333333333333333u64),
            x3 == ((x2 + (x2 >> 4u64)) as u64) & 0x0F0F0F0F0F0F0F0Fu64,
    ;
    assert(byte_of(x3, 6) == popcount8(byte_of(x, 6))) by (bit_vector)
        requires
            x1 == x - ((x >> 1u64) & 0x5555555555555555u64),
            x2 == (x1 & 0x3333333333333333u64) + ((x1 >> 2u64) & 0x3333333333333333u64),
            x3 == ((x2 + (x2 >> 4u64)) as u64) & 0x0F0F0F0F0F0F0F0Fu64,
    ;
    assert(byte_of(x3, 7) == popcount8(byte_of(x, 7))) by (bit_vector)
        requires
            x1 == x - ((x >> 1u64) & 0x5555555555555555u64),
            x2 == (x1 & 0x3333333333333333u64) + ((x1 >> 2u64) & 0x3333333333333333u64),
            x3 == ((x2 + (x2 >> 4u64)) as u64) & 0x0F0F0F0F0F0F0F0Fu64,
    ;
}

proof fn lemma_sum_bytes(x3: u64, r: u64)
    requires
        byte_of(x3, 0) <= 8,
        byte_of(x3, 1) <= 8,
        byte_of(x3, 2) <= 8,
        byte_of(x3, 3) <= 8,
        byte_of(x3, 4) <= 8,
        byte_of(x3, 5) <= 8,
        byte_of(x3, 6) <= 8,
        byte_of(x3, 7) <= 8,
        r == ((x3 * 0x0101010101010101u64) as u64) >> 56u64,
    ensures
        r == byte_of(x3, 0) + byte_of(x3, 1) + byte_of(x3, 2) + byte_of(x3, 3) + byte_of(x3, 4)
            + byte_of(x3, 5) + byte_of(x3, 6) + byte_of(x3, 7),
{
    assert(r == byte_of(x3, 0) + byte_of(x3, 1) + byte_of(x3, 2) + byte_of(x3, 3) + byte_of(x3, 4)
            + byte_of(x3, 5) + byte_of(x3, 6) + byte_of(x3, 7)) by (bit_vector)
        requires
        byte_of(x3, 0) <= 8,
        byte_of(x3, 1) <= 8,
        byte_of(x3, 2) <= 8,
        byte_of(x3, 3) <= 8,
        byte_of(x3, 4) <= 8,
        byte_of(x3, 5) <= 8,
        byte_of(x3, 6) <= 8,
        byte_of(x3, 7) <= 8,
        r == ((x3 * 0x0101010101010101u64) as u64) >> 56u64,
    ;
}

proof fn lemma_wrapping_mul(a: u64, b: u64)
    ensures
        ((a as nat * b as nat) % 0x1_0000_0000_0000_0000nat) as u64 == (a * b) as u64,
{
    assert(((a as nat * b as nat) % 0x1_0000_0000_0000_0000nat) as u64 == (a * b) as u64) by (bit_vector);
}

/// Population count with the Wilkes-Wheeler-Gill bit-parallel reduction.
pub fn popcnt64_classic(x: u64) -> (r: u64)
    ensures
        r == popcount64(x),
{
    let m1: u64 = 0x5555555555555555;
    let m2: u64 = 0x3333333333333333;
    let m4: u64 = 0x0F0F0F0F0F0F0F0F;
    let h01: u64 = 0x0101010101010101;
    assert(((x >> 1u64) & m1) <= x) by (bit_vector)
        requires
            m1 == 0x5555555555555555u64,
    ;
    let x1: u64 = x - ((x >> 1u64) & m1);
    assert((x1 & m2) + ((x1 >> 2u64) & m2) <= u64::MAX) by (bit_vector)
        requires
            m2 == 0x3333333333333333u64,
    ;
    let x2: u64 = (x1 & m2) + ((x1 >> 2u64) & m2);
    assert(x2 + (x2 >> 4u64) <= u64::MAX) by (bit_vector)
        requires
            x1 == x - ((x >> 1u64) & 0x5555555555555555u64),
            x2 == (x1 & 0x3333333333333333u64) + ((x1 >> 2u64) & 0x3333333333333333u64),
    ;
    let x3: u64 = (x2 + (x2 >> 4u64)) & m4;
    let r: u64 = x3.wrapping_mul(h01) >> 56u64;
    proof {
        lemma_swar_bytes(x, x1, x2, x3);
        lemma_wrapping_mul(x3, h01);
        lemma_popcount8_le(byte_of(x, 0));
        lemma_popcount8_le(byte_of(x, 1));
        lemma_popcount8_le(byte_of(x, 2));
        lemma_popcount8_le(byte_of(x, 3));
        lemma_popcount8_le(byte_of(x, 4));
        lemma_popcount8_le(byte_of(x, 5));
        lemma_popcount8_le(byte_of(x, 6));
        lemma_popcount8_le(byte_of(x, 7));
        lemma_sum_bytes(x3, r);
    }
    r
}

} // verus!
