//! Exact sums of gradient pairs.
//!
//! A histogram bin is a 64-bit sum, and 64-bit addition wraps. What a bin holds is
//! therefore the unbounded sum of its rows' pairs, reduced to 64 bits once: how the sum
//! was cut into parts and in which order they were added makes no difference.

use vstd::prelude::*;

use crate::gpu::GradientPairInt64;

verus! {

/// A pair of unbounded sums.
pub struct PairSum {
    pub grad: int,
    pub hess: int,
}

/// `x` reduced to a signed 64-bit integer.
pub open spec fn wrap_i64(x: int) -> i64 {
    ((x + 0x8000_0000_0000_0000) % 0x1_0000_0000_0000_0000 - 0x8000_0000_0000_0000) as i64
}

pub open spec fn zero() -> PairSum {
    PairSum { grad: 0, hess: 0 }
}

pub open spec fn plus(a: PairSum, b: PairSum) -> PairSum {
    PairSum { grad: a.grad + b.grad, hess: a.hess + b.hess }
}

pub open spec fn minus(a: PairSum, b: PairSum) -> PairSum {
    PairSum { grad: a.grad - b.grad, hess: a.hess - b.hess }
}

/// A gradient pair as a sum of one.
pub open spec fn exact(g: GradientPairInt64) -> PairSum {
    PairSum { grad: g.grad as int, hess: g.hess as int }
}

/// A sum as the 64-bit words hold it.
pub open spec fn wrap(p: PairSum) -> GradientPairInt64 {
    GradientPairInt64 { grad: wrap_i64(p.grad), hess: wrap_i64(p.hess) }
}

/// The sum of `f(0)` up to `f(n - 1)`.
pub open spec fn total(n: int, f: spec_fn(int) -> PairSum) -> PairSum
    decreases n,
{
    if n <= 0 {
        zero()
    } else {
        plus(total(n - 1, f), f(n - 1))
    }
}

/// A 64-bit integer is its own reduction.
pub proof fn lemma_wrap_exact(g: GradientPairInt64)
    ensures
        wrap(exact(g)) == g,
{
}

/// Reduction takes off a multiple of `2^64`.
proof fn lemma_wrap_value(x: int) -> (k: int)
    ensures
        wrap_i64(x) == x + k * 0x1_0000_0000_0000_0000,
{
    let m: int = 0x1_0000_0000_0000_0000;
    let y = x + 0x8000_0000_0000_0000;
    vstd::arithmetic::div_mod::lemma_fundamental_div_mod(y, m);
    -(y / m)
}

/// Multiples of `2^64` vanish.
pub proof fn lemma_wrap_multiple(x: int, k: int)
    ensures
        wrap_i64(x + k * 0x1_0000_0000_0000_0000) == wrap_i64(x),
{
    let m: int = 0x1_0000_0000_0000_0000;
    vstd::arithmetic::div_mod::lemma_mod_multiples_vanish(k, x + 0x8000_0000_0000_0000, m);
    assert(x + k * m + 0x8000_0000_0000_0000 == m * k + (x + 0x8000_0000_0000_0000)) by (nonlinear_arith);
}

/// Reducing a term of a 64-bit sum first changes nothing.
proof fn lemma_wrap_terms(x: int, y: int)
    ensures
        wrap_i64(wrap_i64(x) + y) == wrap_i64(x + y),
        wrap_i64(wrap_i64(x) + wrap_i64(y)) == wrap_i64(x + y),
        wrap_i64(wrap_i64(x) - wrap_i64(y)) == wrap_i64(x - y),
{
    let m: int = 0x1_0000_0000_0000_0000;
    let k = lemma_wrap_value(x);
    let l = lemma_wrap_value(y);
    lemma_wrap_multiple(x + y, k);
    lemma_wrap_multiple(x + y, k + l);
    lemma_wrap_multiple(x - y, k - l);
    assert((k + l) * m == k * m + l * m) by (nonlinear_arith);
    assert((k - l) * m == k * m - l * m) by (nonlinear_arith);
}

/// Reducing a part of a sum first changes nothing.
pub proof fn lemma_wrap_plus(a: PairSum, b: PairSum)
    ensures
        wrap(plus(exact(wrap(a)), b)) == wrap(plus(a, b)),
        wrap(plus(exact(wrap(a)), exact(wrap(b)))) == wrap(plus(a, b)),
        wrap(minus(exact(wrap(a)), exact(wrap(b)))) == wrap(minus(a, b)),
{
    lemma_wrap_terms(a.grad, b.grad);
    lemma_wrap_terms(a.hess, b.hess);
}

/// Equal terms make equal sums.
pub proof fn lemma_total_same(n: int, f: spec_fn(int) -> PairSum, g: spec_fn(int) -> PairSum)
    requires
        forall|i: int| 0 <= i < n ==> #[trigger] f(i) == g(i),
    ensures
        total(n, f) == total(n, g),
    decreases n,
{
    if n > 0 {
        lemma_total_same(n - 1, f, g);
        assert(f(n - 1) == g(n - 1));
    }
}

/// Summing two families of terms together.
pub proof fn lemma_total_plus(n: int, f: spec_fn(int) -> PairSum, g: spec_fn(int) -> PairSum)
    ensures
        total(n, |i: int| plus(f(i), g(i))) == plus(total(n, f), total(n, g)),
    decreases n,
{
    if n > 0 {
        lemma_total_plus(n - 1, f, g);
    }
}

/// Summing one run after another.
pub proof fn lemma_total_split(n: int, m: int, f: spec_fn(int) -> PairSum)
    requires
        0 <= n,
        0 <= m,
    ensures
        total(n + m, f) == plus(total(n, f), total(m, |i: int| f(n + i))),
    decreases m,
{
    if m > 0 {
        lemma_total_split(n, m - 1, f);
    }
}

/// Terms that are all zero.
pub proof fn lemma_total_zero(n: int, f: spec_fn(int) -> PairSum)
    requires
        forall|i: int| 0 <= i < n ==> #[trigger] f(i) == zero(),
    ensures
        total(n, f) == zero(),
    decreases n,
{
    if n > 0 {
        lemma_total_zero(n - 1, f);
        assert(f(n - 1) == zero());
    }
}

/// Exchanging two summations.
pub proof fn lemma_total_swap(n: int, m: int, f: spec_fn(int, int) -> PairSum)
    ensures
        total(n, |i: int| total(m, |j: int| f(i, j))) == total(m, |j: int| total(n, |i: int| f(i, j))),
    decreases n,
{
    if n <= 0 {
        lemma_total_zero(m, |j: int| total(n, |i: int| f(i, j)));
    } else {
        lemma_total_swap(n - 1, m, f);
        lemma_total_plus(m, |j: int| total(n - 1, |i: int| f(i, j)), |j: int| f(n - 1, j));
        lemma_total_same(
            m,
            |j: int| plus(total(n - 1, |i: int| f(i, j)), f(n - 1, j)),
            |j: int| total(n, |i: int| f(i, j)),
        );
        lemma_total_same(
            m,
            |j: int| plus((|j: int| total(n - 1, |i: int| f(i, j)))(j), (|j: int| f(n - 1, j))(j)),
            |j: int| plus(total(n - 1, |i: int| f(i, j)), f(n - 1, j)),
        );
    }
}

impl GradientPairInt64 {
    /// 64-bit addition of both words.
    pub fn wrapping_add(self, rhs: Self) -> (sum: Self)
        ensures
            sum == wrap(plus(exact(self), exact(rhs))),
    {
        GradientPairInt64 {
            grad: self.grad.wrapping_add(rhs.grad),
            hess: self.hess.wrapping_add(rhs.hess),
        }
    }

    /// 64-bit subtraction of both words.
    pub fn wrapping_sub(self, rhs: Self) -> (difference: Self)
        ensures
            difference == wrap(minus(exact(self), exact(rhs))),
    {
        GradientPairInt64 {
            grad: self.grad.wrapping_sub(rhs.grad),
            hess: self.hess.wrapping_sub(rhs.hess),
        }
    }
}

/// Gradients are added to gradients and hessians to hessians, and a sum that fits 64 bits is held as
/// it is.
pub proof fn lemma_pair_parts(a: PairSum, b: PairSum, g: GradientPairInt64)
    ensures
        plus(a, b).grad == a.grad + b.grad && plus(a, b).hess == a.hess + b.hess,
        minus(plus(a, b), b) == a,
        exact(g).grad == g.grad && exact(g).hess == g.hess,
        i64::MIN <= a.grad <= i64::MAX ==> wrap(a).grad == a.grad,
        i64::MIN <= a.hess <= i64::MAX ==> wrap(a).hess == a.hess,
        zero().grad == 0 && zero().hess == 0,
{
}

/// A total is that of the terms before the last, and the last.
pub proof fn lemma_total_grows(n: int, f: spec_fn(int) -> PairSum)
    requires
        n >= 0,
    ensures
        total(0, f) == zero(),
        total(n + 1, f).grad == total(n, f).grad + f(n).grad,
        total(n + 1, f).hess == total(n, f).hess + f(n).hess,
{
}

} // verus!
