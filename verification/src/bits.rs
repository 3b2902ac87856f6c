//! Single bits of 32-bit words.
//!
//! Packed buffers and category sets are specified bit by bit; the lemmas here
//! say what the word operations do to each bit.

use vstd::prelude::*;

verus! {

/// Bit `j` of `v`, counted from the least significant.
pub open spec fn bit(v: u32, j: int) -> bool {
    (v >> (j as u32)) & 1 == 1
}

/// A word whose every bit is clear.
pub proof fn lemma_zero_bits(j: int)
    requires
        0 <= j < 32,
    ensures
        !bit(0, j),
{
    let k: u32 = j as u32;
    assert((0u32 >> k) & 1 != 1) by (bit_vector);
}

/// `|` joins two words bit by bit.
pub proof fn lemma_or_bit(a: u32, b: u32, j: int)
    requires
        0 <= j < 32,
    ensures
        bit(a | b, j) == (bit(a, j) || bit(b, j)),
{
    let k: u32 = j as u32;
    assert((((a | b) >> k) & 1 == 1) == ((a >> k) & 1 == 1 || (b >> k) & 1 == 1)) by (bit_vector)
        requires
            k < 32,
    ;
}

/// The low word of a value shifted left inside 64 bits.
pub proof fn lemma_shifted_low(v: u32, off: u32, j: int)
    requires
        off < 32,
        0 <= j < 32,
    ensures
        bit(((v as u64) << (off as u64)) as u32, j) == (j >= off && bit(v, j - off)),
{
    let k: u32 = j as u32;
    let wide: u64 = (v as u64) << (off as u64);
    if j >= off {
        let i: u32 = (j - off) as u32;
        assert(((((v as u64) << (off as u64)) as u32) >> k) & 1 == (v >> i) & 1) by (bit_vector)
            requires
                off < 32,
                k < 32,
                i + off == k,
        ;
    } else {
        assert(((((v as u64) << (off as u64)) as u32) >> k) & 1 == 0) by (bit_vector)
            requires
                off < 32,
                k < off,
        ;
    }
}

/// The high word of a value shifted left inside 64 bits.
pub proof fn lemma_shifted_high(v: u32, off: u32, j: int)
    requires
        off < 32,
        0 <= j < 32,
    ensures
        bit((((v as u64) << (off as u64)) >> 32u64) as u32, j) == (j < off && bit(v, j + 32 - off)),
{
    let k: u32 = j as u32;
    if j < off {
        let i: u32 = (j + 32 - off) as u32;
        assert((((((v as u64) << (off as u64)) >> 32u64) as u32) >> k) & 1 == (v >> i) & 1)
            by (bit_vector)
            requires
                off < 32,
                k < off,
                i + off == k + 32,
        ;
    } else {
        assert((((((v as u64) << (off as u64)) >> 32u64) as u32) >> k) & 1 == 0) by (bit_vector)
            requires
                off < 32,
                off <= k < 32,
        ;
    }
}

/// A window of 32 bits read across two neighbouring words.
pub proof fn lemma_window_bit(lo: u32, hi: u32, off: u32, j: int)
    requires
        off < 32,
        0 <= j < 32,
    ensures
        bit(((((hi as u64) << 32u64) | (lo as u64)) >> (off as u64)) as u32, j) == (if off + j < 32 {
            bit(lo, off + j)
        } else {
            bit(hi, off + j - 32)
        }),
{
    let k: u32 = j as u32;
    if off + j < 32 {
        let i: u32 = (off + j) as u32;
        assert((((((hi as u64) << 32u64) | (lo as u64)) >> (off as u64)) as u32 >> k) & 1 == (lo >> i) & 1)
            by (bit_vector)
            requires
                i == off + k,
                i < 32,
        ;
    } else {
        let i: u32 = (off + j - 32) as u32;
        assert((((((hi as u64) << 32u64) | (lo as u64)) >> (off as u64)) as u32 >> k) & 1 == (hi >> i) & 1)
            by (bit_vector)
            requires
                i + 32 == off + k,
                off < 32,
                k < 32,
        ;
    }
}

/// Keeping the low `width` bits of a word.
pub proof fn lemma_masked_bit(v: u32, width: u32, j: int)
    requires
        1 <= width < 32,
        0 <= j < 32,
    ensures
        bit(v & (((1u32 << width) - 1) as u32), j) == (j < width && bit(v, j)),
{
    let k: u32 = j as u32;
    assert(((v & (((1u32 << width) - 1) as u32)) >> k) & 1 == (if k < width {
        (v >> k) & 1
    } else {
        0u32
    })) by (bit_vector)
        requires
            1 <= width < 32,
            k < 32,
    ;
}

/// A word shifted right.
pub proof fn lemma_shr_bit(v: u32, off: u32, j: int)
    requires
        off < 32,
        0 <= j < 32,
    ensures
        bit(v >> off, j) == (j + off < 32 && bit(v, j + off)),
{
    let k: u32 = j as u32;
    let i: u32 = (j + off) as u32;
    assert(((v >> off) >> k) & 1 == (if i < 32 {
        (v >> i) & 1
    } else {
        0u32
    })) by (bit_vector)
        requires
            off < 32,
            k < 32,
            i == k + off,
    ;
}

/// Two words that agree on every bit are the same word.
pub proof fn lemma_same_bits(a: u32, b: u32)
    requires
        forall|j: int| 0 <= j < 32 ==> bit(a, j) == bit(b, j),
    ensures
        a == b,
{
    let d = a ^ b;
    if a != b {
        // The lowest bit at which the two differ.
        let low: u32 = vstd::std_specs::bits::u32_trailing_zeros(d);
        assert(d != 0) by (bit_vector)
            requires
                d == a ^ b,
                a != b,
        ;
        vstd::std_specs::bits::axiom_u32_trailing_zeros(d);
        assert((a >> low) & 1 != (b >> low) & 1) by (bit_vector)
            requires
                d == a ^ b,
                (d >> low) & 1 == 1,
        ;
        assert(bit(a, low as int) == bit(b, low as int));
        assert((a >> low) & 1 == 0 || (a >> low) & 1 == 1) by (bit_vector);
        assert((b >> low) & 1 == 0 || (b >> low) & 1 == 1) by (bit_vector);
    }
}

/// Setting one bit of a word.
pub proof fn lemma_set_bit(v: u32, at: u32, j: int)
    requires
        at < 32,
        0 <= j < 32,
    ensures
        bit(v | (1u32 << at), j) == (j == at || bit(v, j)),
{
    let k: u32 = j as u32;
    assert(((v | (1u32 << at)) >> k) & 1 == (if k == at {
        1u32
    } else {
        (v >> k) & 1
    })) by (bit_vector)
        requires
            at < 32,
            k < 32,
    ;
}

} // verus!
