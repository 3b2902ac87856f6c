//! Single-precision numbers as their bit patterns.
//!
//! Feature values, labels and cut points are stored as the 32 bits of an IEEE
//! binary32 number. Everything the library does with them short of arithmetic
//! (telling a missing value, comparing, sorting, searching) is a question about
//! those bits, and is answered here.

use vstd::prelude::*;

verus! {

/// Exponent field of all ones: the bits of positive infinity.
pub const INF_BITS: u32 = 0x7F80_0000;

/// The bits of negative infinity.
pub const NEG_INF_BITS: u32 = 0xFF80_0000;

/// The sign bit.
pub const SIGN_BIT: u32 = 0x8000_0000;

/// Magnitude field: every bit but the sign.
pub open spec fn magnitude(bits: u32) -> int {
    if bits < SIGN_BIT {
        bits as int
    } else {
        bits - SIGN_BIT
    }
}

/// Whether `bits` is a NaN: an all-ones exponent with a mantissa.
pub open spec fn is_nan_spec(bits: u32) -> bool {
    magnitude(bits) > INF_BITS
}

/// Where a number that is not NaN stands on the number line: sign and magnitude
/// read as a signed integer, so that both zeros stand at 0 and a larger number
/// stands further right.
pub open spec fn rank(bits: u32) -> int {
    if bits < SIGN_BIT {
        bits as int
    } else {
        SIGN_BIT - bits
    }
}

/// `a < b` of floating-point numbers: false when either is NaN.
pub open spec fn lt_spec(a: u32, b: u32) -> bool {
    !is_nan_spec(a) && !is_nan_spec(b) && rank(a) < rank(b)
}

/// `a == b` of floating-point numbers: false when either is NaN, and the two
/// zeros are equal.
pub open spec fn same_spec(a: u32, b: u32) -> bool {
    !is_nan_spec(a) && !is_nan_spec(b) && rank(a) == rank(b)
}

/// `a <= b` of floating-point numbers: false when either is NaN.
pub open spec fn le_spec(a: u32, b: u32) -> bool {
    !is_nan_spec(a) && !is_nan_spec(b) && rank(a) <= rank(b)
}

/// Whether `bits` is a NaN, read off the bits.
pub fn is_nan_bits(bits: u32) -> (nan: bool)
    ensures
        nan == is_nan_spec(bits),
{
    if bits < SIGN_BIT {
        bits > INF_BITS
    } else {
        bits - SIGN_BIT > INF_BITS
    }
}

/// `a < b`.
pub fn lt(a: u32, b: u32) -> (less: bool)
    ensures
        less == lt_spec(a, b),
{
    if is_nan_bits(a) || is_nan_bits(b) {
        false
    } else if a < SIGN_BIT {
        b < SIGN_BIT && a < b
    } else if b < SIGN_BIT {
        !(a == SIGN_BIT && b == 0)
    } else {
        a > b
    }
}

/// `a == b`.
pub fn same(a: u32, b: u32) -> (equal: bool)
    ensures
        equal == same_spec(a, b),
{
    if is_nan_bits(a) || is_nan_bits(b) {
        false
    } else {
        a == b || (a == SIGN_BIT && b == 0) || (a == 0 && b == SIGN_BIT)
    }
}

/// `a <= b`.
pub fn le(a: u32, b: u32) -> (at_most: bool)
    ensures
        at_most == le_spec(a, b),
{
    lt(a, b) || same(a, b)
}

/// What is not above a number is not at or above a larger one.
pub proof fn lemma_lt_step(a: u32, b: u32, c: u32)
    requires
        lt_spec(a, b),
        !lt_spec(a, c),
    ensures
        !lt_spec(b, c),
        !le_spec(b, c),
{
}

/// Where a number stands in the total order of all bit patterns: negative NaNs, the negative
/// numbers, minus zero, zero, the positive numbers, positive NaNs.
pub open spec fn total_rank(bits: u32) -> int {
    if bits < SIGN_BIT {
        bits as int
    } else {
        SIGN_BIT - bits - 1
    }
}

/// `a` stands before `b` in the total order.
pub fn total_before(a: u32, b: u32) -> (yes: bool)
    ensures
        yes == (total_rank(a) < total_rank(b)),
{
    if a < SIGN_BIT {
        b < SIGN_BIT && a < b
    } else {
        b < SIGN_BIT || b < a
    }
}

/// The sign bit of a double-precision number.
pub const WIDE_SIGN_BIT: u64 = 0x8000_0000_0000_0000;

/// The bits of double-precision positive infinity.
pub const WIDE_INF_BITS: u64 = 0x7FF0_0000_0000_0000;

/// Whether a double-precision number is a NaN.
pub open spec fn wide_is_nan(bits: u64) -> bool {
    wide_rank(bits) > WIDE_INF_BITS || wide_rank(bits) < -WIDE_INF_BITS
}

/// Where a double-precision number that is not NaN stands on the number line.
pub open spec fn wide_rank(bits: u64) -> int {
    if bits < WIDE_SIGN_BIT {
        bits as int
    } else {
        WIDE_SIGN_BIT - bits
    }
}

/// `a < b` of double-precision numbers: false when either is NaN.
pub open spec fn wide_lt_spec(a: u64, b: u64) -> bool {
    !wide_is_nan(a) && !wide_is_nan(b) && wide_rank(a) < wide_rank(b)
}

fn wide_nan(bits: u64) -> (nan: bool)
    ensures
        nan == wide_is_nan(bits),
{
    if bits < WIDE_SIGN_BIT {
        bits > WIDE_INF_BITS
    } else {
        bits - WIDE_SIGN_BIT > WIDE_INF_BITS
    }
}

/// `a < b` of double-precision numbers.
pub fn wide_lt(a: u64, b: u64) -> (less: bool)
    ensures
        less == wide_lt_spec(a, b),
{
    if wide_nan(a) || wide_nan(b) {
        return false;
    }
    if a < WIDE_SIGN_BIT {
        b < WIDE_SIGN_BIT && a < b
    } else if b < WIDE_SIGN_BIT {
        a - WIDE_SIGN_BIT > 0 || b > 0
    } else {
        b < a
    }
}

/// `a == b` of double-precision numbers: false when either is NaN, and the two zeros are
/// equal.
pub open spec fn wide_same_spec(a: u64, b: u64) -> bool {
    !wide_is_nan(a) && !wide_is_nan(b) && wide_rank(a) == wide_rank(b)
}

/// `a == b` of double-precision numbers.
pub fn wide_same(a: u64, b: u64) -> (equal: bool)
    ensures
        equal == wide_same_spec(a, b),
{
    !wide_nan(a) && (a == b || (wide_zero(a) && wide_zero(b)))
}

/// Whether a double-precision number is one of the two zeros.
pub fn wide_zero(bits: u64) -> (zero: bool)
    ensures
        zero == (wide_rank(bits) == 0),
{
    bits == 0 || bits == WIDE_SIGN_BIT
}

/// Read off the bits: numbers without the sign bit are ordered as their bits are, numbers with it
/// the other way round, and one with it stands below one without, but for the two zeros, which
/// are equal.
pub proof fn lemma_order_of_bits(a: u32, b: u32)
    ensures
        a <= 0x7F80_0000 && b <= 0x7F80_0000 ==> (lt_spec(a, b) <==> a < b) && (le_spec(a, b) <==> a <= b) && (
        same_spec(a, b) <==> a == b),
        0x8000_0000 <= a <= 0xFF80_0000 && 0x8000_0000 <= b <= 0xFF80_0000 ==> (lt_spec(a, b) <==> b < a) && (
        le_spec(a, b) <==> b <= a) && (same_spec(a, b) <==> a == b),
        0x8000_0000 <= a <= 0xFF80_0000 && b <= 0x7F80_0000 ==> le_spec(a, b) && !lt_spec(b, a) && (lt_spec(a, b)
            <==> a != 0x8000_0000 || b != 0) && (same_spec(a, b) <==> a == 0x8000_0000 && b == 0),
{
}

/// What has every exponent bit set and a mantissa compares with nothing, itself included.
pub proof fn lemma_nan_compares_with_nothing(a: u32, b: u32)
    requires
        0x7F80_0000 < a < 0x8000_0000 || 0xFF80_0000 < a,
    ensures
        is_nan_spec(a),
        !lt_spec(a, b) && !le_spec(a, b) && !same_spec(a, b),
        !lt_spec(b, a) && !le_spec(b, a) && !same_spec(b, a),
{
}

/// Of two numbers that are not NaN exactly one is less, or they are equal; less passes along.
pub proof fn lemma_numbers_compare(a: u32, b: u32, c: u32)
    requires
        !is_nan_spec(a) && !is_nan_spec(b),
    ensures
        lt_spec(a, b) || same_spec(a, b) || lt_spec(b, a),
        !(lt_spec(a, b) && lt_spec(b, a)) && !(lt_spec(a, b) && same_spec(a, b)),
        le_spec(a, b) <==> lt_spec(a, b) || same_spec(a, b),
        lt_spec(a, b) && lt_spec(b, c) ==> lt_spec(a, c),
{
}

/// The total order tells any two bit patterns apart, and puts the smaller of two numbers first.
pub proof fn lemma_total_order(a: u32, b: u32)
    ensures
        total_rank(a) == total_rank(b) <==> a == b,
        lt_spec(a, b) ==> total_rank(a) < total_rank(b),
        a >= 0x8000_0000 && b < 0x8000_0000 ==> total_rank(a) < total_rank(b),
        a < 0x8000_0000 && b < 0x8000_0000 ==> (total_rank(a) < total_rank(b) <==> a < b),
        a >= 0x8000_0000 && b >= 0x8000_0000 ==> (total_rank(a) < total_rank(b) <==> b < a),
{
}

/// Double-precision numbers read off their bits, as the single-precision ones are.
pub proof fn lemma_wide_order_of_bits(a: u64, b: u64)
    ensures
        a <= 0x7FF0_0000_0000_0000 && b <= 0x7FF0_0000_0000_0000 ==> (wide_lt_spec(a, b) <==> a < b) && (
        wide_same_spec(a, b) <==> a == b),
        0x8000_0000_0000_0000 <= a <= 0xFFF0_0000_0000_0000 && 0x8000_0000_0000_0000 <= b
            <= 0xFFF0_0000_0000_0000 ==> (wide_lt_spec(a, b) <==> b < a) && (wide_same_spec(a, b) <==> a == b),
        0x8000_0000_0000_0000 <= a <= 0xFFF0_0000_0000_0000 && b <= 0x7FF0_0000_0000_0000 ==> !wide_lt_spec(b, a)
            && (wide_lt_spec(a, b) <==> a != 0x8000_0000_0000_0000 || b != 0) && (wide_same_spec(a, b) <==> a
            == 0x8000_0000_0000_0000 && b == 0),
        0x7FF0_0000_0000_0000 < a < 0x8000_0000_0000_0000 || 0xFFF0_0000_0000_0000 < a ==> wide_is_nan(a)
            && !wide_lt_spec(a, b) && !wide_lt_spec(b, a) && !wide_same_spec(a, b) && !wide_same_spec(b, a),
{
}

} // verus!
