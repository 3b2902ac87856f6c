//! Fixed-point gradients.
//!
//! Gradients are converted to a fixed-point 64-bit representation, so that a histogram sum
//! does not depend on the order its rows are added in. The scale is a power of two, chosen
//! by the exponent of a bound on the sums ([`ceil_log2`]).

use vstd::prelude::*;

use vstd::arithmetic::power2::{lemma2_to64, lemma2_to64_rest, lemma_pow2_unfold, pow2};

use crate::float_bits::{WIDE_INF_BITS, WIDE_SIGN_BIT};
use crate::gpu::growth::column_sum;
use crate::gpu::launch::{ceil_div, div_ceil_u32, lemma_ceil_div, max_of, min_of, scan_block_1d, Hardware};
use crate::gpu::pairs::{
    exact, lemma_total_same, lemma_total_split, lemma_wrap_exact, lemma_wrap_plus, plus, total, wrap, zero, PairSum,
};
use crate::gpu::GradientPairInt64;

verus! {

/// Cubes a reduction is spread over.
pub const REDUCE_CUBES: u32 = 1024;

/// The magnitude of a double-precision number.
pub open spec fn wide_magnitude(bits: u64) -> int {
    if bits < WIDE_SIGN_BIT {
        bits as int
    } else {
        bits - WIDE_SIGN_BIT
    }
}

/// `e` is the exponent of a finite number other than zero: the number is at least half and
/// less than one times `2^e` in magnitude.
///
/// A normal number's is its exponent field less the bias; a subnormal one's follows from the
/// highest bit of its mantissa.
pub open spec fn is_exponent(bits: u64, e: int) -> bool {
    let m = wide_magnitude(bits);
    let field = m / 0x10_0000_0000_0000;
    if field != 0 {
        e == field - 1022
    } else {
        0 <= e + 1073 && pow2((e + 1073) as nat) <= m < pow2((e + 1074) as nat)
    }
}

/// The exponent that splits a double-precision number into a fraction from a half up to one
/// and a power of two; zero for a zero and for what is not finite.
pub fn frexp_exp(bits: u64) -> (e: i32)
    ensures
        wide_magnitude(bits) == 0 || wide_magnitude(bits) >= WIDE_INF_BITS ==> e == 0,
        0 < wide_magnitude(bits) < WIDE_INF_BITS ==> is_exponent(bits, e as int),
{
    let m: u64 = if bits < WIDE_SIGN_BIT {
        bits
    } else {
        bits - WIDE_SIGN_BIT
    };
    if m == 0 || m >= WIDE_INF_BITS {
        return 0;
    }
    let biased: u64 = m / 0x10_0000_0000_0000;
    if biased != 0 {
        return biased as i32 - 1022;
    }
    // The highest bit of the mantissa.
    let mut p: i32 = 0;
    let mut power: u64 = 1;
    proof {
        lemma2_to64();
        lemma2_to64_rest();
    }
    while m / 2 >= power
        invariant
            0 < m < 0x10_0000_0000_0000,
            0 <= p,
            power == pow2(p as nat),
            0 < power <= m,
            p < 64,
            pow2(63) == 0x8000_0000_0000_0000,
        decreases m - power,
    {
        proof {
            lemma_pow2_unfold((p + 1) as nat);
            if p == 63 {
                assert(power == 0x8000_0000_0000_0000);
            }
        }
        power = power * 2;
        p = p + 1;
    }
    proof {
        lemma_pow2_unfold((p + 1) as nat);
    }
    p - 1073
}

/// `e` is the least exponent such that a finite number other than zero is at most `2^e` in
/// magnitude: a normal number's exponent field less the bias, and one more unless the number
/// is a power of two itself.
pub open spec fn is_ceiling(bits: u64, e: int) -> bool {
    let m = wide_magnitude(bits);
    let field = m / 0x10_0000_0000_0000;
    if field != 0 {
        e == field - 1023 + (if m % 0x10_0000_0000_0000 == 0 {
            0int
        } else {
            1
        })
    } else {
        &&& 0 <= e + 1074
        &&& m <= pow2((e + 1074) as nat)
        &&& e + 1074 > 0 ==> pow2((e + 1073) as nat) < m
    }
}

/// The exponent of the least power of two that a double-precision number does not exceed in
/// magnitude; zero for a zero and for what is not finite.
pub fn ceil_log2(bits: u64) -> (e: i32)
    ensures
        wide_magnitude(bits) == 0 || wide_magnitude(bits) >= WIDE_INF_BITS ==> e == 0,
        0 < wide_magnitude(bits) < WIDE_INF_BITS ==> is_ceiling(bits, e as int),
{
    let m: u64 = if bits < WIDE_SIGN_BIT {
        bits
    } else {
        bits - WIDE_SIGN_BIT
    };
    if m == 0 || m >= WIDE_INF_BITS {
        return 0;
    }
    let biased: u64 = m / 0x10_0000_0000_0000;
    if biased != 0 {
        return if m % 0x10_0000_0000_0000 == 0 {
            biased as i32 - 1023
        } else {
            biased as i32 - 1022
        };
    }
    let mut p: i32 = 0;
    let mut power: u64 = 1;
    proof {
        lemma2_to64();
        lemma2_to64_rest();
    }
    while power < m
        invariant
            0 < m < 0x10_0000_0000_0000,
            0 <= p,
            power == pow2(p as nat),
            0 < power < 2 * m,
            p > 0 ==> pow2((p - 1) as nat) < m,
            p < 64,
            pow2(63) == 0x8000_0000_0000_0000,
        decreases 2 * m - power,
    {
        proof {
            lemma_pow2_unfold((p + 1) as nat);
            if p == 63 {
                assert(power == 0x8000_0000_0000_0000);
            }
        }
        power = power * 2;
        p = p + 1;
    }
    p - 1074
}

/// The ceiling is the exponent of the number, or one less where the number is a power of two.
pub proof fn lemma_ceiling_exponent(bits: u64, e: int, c: int)
    requires
        0 < wide_magnitude(bits) < WIDE_INF_BITS,
        is_exponent(bits, e),
        is_ceiling(bits, c),
    ensures
        c == e || c == e - 1,
        wide_magnitude(bits) >= 0x10_0000_0000_0000 ==> (c == e - 1 <==> wide_magnitude(bits) % 0x10_0000_0000_0000 == 0),
{
    let m = wide_magnitude(bits);
    if m / 0x10_0000_0000_0000 == 0 {
        if c > e {
            if c + 1073 > e + 1074 {
                vstd::arithmetic::power2::lemma_pow2_strictly_increases((e + 1074) as nat, (c + 1073) as nat);
            }
        } else if c < e - 1 {
            vstd::arithmetic::power2::lemma_pow2_strictly_increases((c + 1074) as nat, (e + 1073) as nat);
        }
    }
}

/// A positive hessian stays positive through fixed-point truncation.
pub fn keep_curvature(positive: bool, hess: i64) -> (kept: i64)
    ensures
        kept == (if positive && hess == 0 {
            1
        } else {
            hess as int
        }),
        positive ==> kept != 0,
        hess != 0 || !positive ==> kept == hess,
{
    if positive && hess == 0 {
        1
    } else {
        hess
    }
}

/// Units per cube, cubes, and rows per cube of a reduction over `n` rows.
pub fn reduce_geometry(hardware: &Hardware, n: u32) -> (geometry: (u32, u32, u32))
    requires
        hardware.block(256) * 16 <= u32::MAX,
    ensures
        exists|k: nat| geometry.0 == #[trigger] pow2(k),
        geometry.0 <= hardware.block(256) < 2 * geometry.0,
        geometry.1 == min_of(max_of(ceil_div(n as int, geometry.0 * 16), 1), REDUCE_CUBES as int),
        geometry.2 == max_of(ceil_div(n as int, geometry.1 as int), 1),
        n <= geometry.1 * geometry.2,
{
    let block: u32 = scan_block_1d(hardware, 256);
    let spread: u32 = div_ceil_u32(n, block * 16);
    let cubes: u32 = if spread < 1 {
        1
    } else if spread > REDUCE_CUBES {
        REDUCE_CUBES
    } else {
        spread
    };
    let rows: u32 = div_ceil_u32(n, cubes);
    let chunk: u32 = if rows == 0 {
        1
    } else {
        rows
    };
    proof {
        lemma_ceil_div(n as int, cubes as int);
        assert(n <= cubes * chunk) by (nonlinear_arith)
            requires
                n <= ceil_div(n as int, cubes as int) * cubes,
                rows == ceil_div(n as int, cubes as int),
                chunk >= rows,
                cubes >= 1,
        ;
    }
    (block, cubes, chunk)
}

/// The terms before `m` that unit `t` of `block` takes: every `block`-th from its own.
spec fn unit_sum(f: spec_fn(int) -> PairSum, t: int, block: int, m: int) -> PairSum
    decreases m,
{
    if m <= 0 {
        zero()
    } else if (m - 1) % block == t {
        plus(unit_sum(f, t, block, m - 1), f(m - 1))
    } else {
        unit_sum(f, t, block, m - 1)
    }
}

/// Adding to one unit's sum adds to the total.
proof fn lemma_total_bump(n: int, f: spec_fn(int) -> PairSum, g: spec_fn(int) -> PairSum, r: int, x: PairSum)
    requires
        forall|t: int| 0 <= t < n ==> #[trigger] g(t) == (if t == r {
            plus(f(t), x)
        } else {
            f(t)
        }),
    ensures
        total(n, g) == (if 0 <= r < n {
            plus(total(n, f), x)
        } else {
            total(n, f)
        }),
    decreases n,
{
    if n > 0 {
        lemma_total_bump(n - 1, f, g, r, x);
        assert(g(n - 1) == (if n - 1 == r {
            plus(f(n - 1), x)
        } else {
            f(n - 1)
        }));
    }
}

/// The units' sums make the whole.
proof fn lemma_units_total(f: spec_fn(int) -> PairSum, block: int, m: int)
    requires
        0 < block,
        0 <= m,
    ensures
        total(block, |t: int| unit_sum(f, t, block, m)) == total(m, f),
    decreases m,
{
    let now = |t: int| unit_sum(f, t, block, m);
    if m == 0 {
        crate::gpu::pairs::lemma_total_zero(block, now);
    } else {
        let was = |t: int| unit_sum(f, t, block, m - 1);
        lemma_units_total(f, block, m - 1);
        let r = (m - 1) % block;
        lemma_total_bump(block, was, now, r, f(m - 1));
    }
}

/// A unit's stride passes over the other units' terms.
proof fn lemma_unit_stride(f: spec_fn(int) -> PairSum, t: int, block: int, i: int, n: int)
    requires
        0 <= t < block,
        0 <= i,
        i % block == t,
        0 <= n < block,
    ensures
        unit_sum(f, t, block, i + 1 + n) == plus(unit_sum(f, t, block, i), f(i)),
    decreases n,
{
    if n > 0 {
        lemma_unit_stride(f, t, block, i, n - 1);
        assert((i + n) % block != t) by (nonlinear_arith)
            requires
                i % block == t,
                0 < n < block,
                0 <= t < block,
        ;
    }
}

/// Reducing the terms before adding them makes no difference once the sum is reduced.
proof fn lemma_total_wrapped(n: int, f: spec_fn(int) -> PairSum, g: spec_fn(int) -> PairSum)
    requires
        forall|t: int| 0 <= t < n ==> #[trigger] g(t) == exact(wrap(f(t))),
    ensures
        wrap(total(n, g)) == wrap(total(n, f)),
    decreases n,
{
    if n > 0 {
        lemma_total_wrapped(n - 1, f, g);
        assert(g(n - 1) == exact(wrap(f(n - 1))));
        lemma_wrap_plus(total(n - 1, f), f(n - 1));
        lemma_wrap_plus(total(n - 1, g), exact(wrap(f(n - 1))));
        lemma_wrap_exact(wrap(f(n - 1)));
    }
}

/// One unit's sum of a cube's rows `begin..end`.
fn unit_total(gpairs: &Vec<GradientPairInt64>, begin: usize, end: usize, t: usize, block: usize) -> (sum: GradientPairInt64)
    requires
        begin <= end <= gpairs.len(),
        t < block,
        end + block <= usize::MAX,
    ensures
        sum == wrap(unit_sum(|k: int| exact(gpairs[begin + k]), t as int, block as int, end - begin)),
{
    let ghost f = |k: int| exact(gpairs[begin + k]);
    let ghost n = end - begin;
    let mut sum = GradientPairInt64 { grad: 0, hess: 0 };
    let mut i: usize = begin + t;
    proof {
        lemma_unit_none(f, t as int, block as int, t as int);
        lemma_wrap_exact(sum);
        vstd::arithmetic::div_mod::lemma_small_mod(t as nat, block as nat);
    }
    while i < end
        invariant
            begin <= end <= gpairs.len(),
            t < block,
            end + block <= usize::MAX,
            f == (|k: int| exact(gpairs[begin + k])),
            n == end - begin,
            begin + t <= i,
            i <= end + block,
            i < end + block || i == begin + t,
            (i - begin) % (block as int) == t,
            sum == wrap(unit_sum(f, t as int, block as int, i - begin)),
        decreases end + block - i,
    {
        let ghost k = i - begin;
        sum = sum.wrapping_add(gpairs[i]);
        proof {
            lemma_unit_stride(f, t as int, block as int, k, block - 1);
            lemma_wrap_plus(unit_sum(f, t as int, block as int, k), f(k));
            assert((k + block) % (block as int) == t) by (nonlinear_arith)
                requires
                    k % (block as int) == t,
                    block > 0,
            ;
        }
        i = i + block;
    }
    proof {
        let m = i - begin;
        lemma_unit_tail(f, t as int, block as int, n, m);
    }
    sum
}

/// A unit has no term before its own first.
proof fn lemma_unit_none(f: spec_fn(int) -> PairSum, t: int, block: int, m: int)
    requires
        0 <= m <= t < block,
    ensures
        unit_sum(f, t, block, m) == zero(),
    decreases m,
{
    if m > 0 {
        lemma_unit_none(f, t, block, m - 1);
        vstd::arithmetic::div_mod::lemma_small_mod((m - 1) as nat, block as nat);
    }
}

/// Where the next term of a unit lies at `m`, none lies between `n` and `m`.
proof fn lemma_unit_tail(f: spec_fn(int) -> PairSum, t: int, block: int, n: int, m: int)
    requires
        0 <= t < block,
        0 <= n,
        m % block == t,
        n <= m,
        m < n + block || m == t,
    ensures
        unit_sum(f, t, block, n) == unit_sum(f, t, block, m),
    decreases m - n,
{
    if n < m {
        if m == t {
            lemma_unit_none(f, t, block, n);
            lemma_unit_none(f, t, block, m);
        } else {
            lemma_unit_tail(f, t, block, n + 1, m);
            assert(n % block != t) by (nonlinear_arith)
                requires
                    m % block == t,
                    0 < m - n < block,
                    0 <= t < block,
            ;
        }
    }
}

/// The units' sums joined in a tree: the upper half onto the lower, again and again.
fn reduce_tree(shared: &mut Vec<GradientPairInt64>, block: usize)
    requires
        old(shared).len() == block,
        block <= u32::MAX,
        exists|k: nat| block == #[trigger] pow2(k),
    ensures
        final(shared).len() == block,
        final(shared)[0] == wrap(total(block as int, |t: int| exact(old(shared)[t]))),
{
    let ghost start = shared@;
    let ghost whole = wrap(total(block as int, |t: int| exact(start[t])));
    let ghost mut k: nat = choose|k: nat| block == #[trigger] pow2(k);
    let mut width: usize = block;
    proof {
        vstd::arithmetic::power2::lemma_pow2_pos(k);
        lemma_total_same(block as int, |t: int| exact(start[t]), |t: int| exact(shared@[t]));
    }
    while width > 1
        invariant
            shared.len() == block,
            1 <= width <= block,
            width == pow2(k),
            wrap(total(width as int, |t: int| exact(shared@[t]))) == whole,
        decreases width,
    {
        let d: usize = width / 2;
        let ghost was = shared@;
        proof {
            if k == 0 {
                lemma2_to64();
            }
            lemma_pow2_unfold(k);
            k = (k - 1) as nat;
        }
        let mut t: usize = 0;
        while t < d
            invariant
                2 * d == width,
                width <= block,
                shared.len() == block,
                was.len() == block,
                t <= d,
                forall|x: int| 0 <= x < t ==> #[trigger] shared[x] == wrap(plus(exact(was[x]), exact(was[d + x]))),
                forall|x: int| t <= x < block ==> #[trigger] shared[x] == was[x],
            decreases d - t,
        {
            let joined: GradientPairInt64 = shared[t].wrapping_add(shared[t + d]);
            shared.set(t, joined);
            t += 1;
        }
        proof {
            let low = |t: int| exact(was[t]);
            let high = |t: int| low(d + t);
            let both = |t: int| plus(low(t), high(t));
            let now = |t: int| exact(shared@[t]);
            assert forall|x: int| 0 <= x < d implies #[trigger] now(x) == exact(wrap(both(x))) by {
                assert(shared[x] == wrap(plus(exact(was[x]), exact(was[d + x]))));
            }
            lemma_total_wrapped(d as int, both, now);
            crate::gpu::pairs::lemma_total_plus(d as int, low, high);
            lemma_total_split(d as int, d as int, low);
            lemma_total_same(d as int, high, |i: int| low(d + i));
            lemma_total_same(d as int, both, |i: int| plus(low(i), high(i)));
            lemma_total_same(d as int, now, |t: int| exact(shared@[t]));
        }
        width = d;
    }
    proof {
        let now = |t: int| exact(shared@[t]);
        assert(total(1, now) == plus(total(0, now), now(0)));
        lemma_wrap_exact(shared[0]);
    }
}

/// One cube's sum of its rows: every unit's, joined in a tree.
fn gpair_sum_kernel(gpairs: &Vec<GradientPairInt64>, begin: usize, end: usize, block: u32) -> (sum: GradientPairInt64)
    requires
        begin <= end <= gpairs.len(),
        end + block <= usize::MAX,
        exists|k: nat| block == #[trigger] pow2(k),
    ensures
        sum == wrap(total(end - begin, |k: int| exact(gpairs[begin + k]))),
{
    let ghost f = |k: int| exact(gpairs[begin + k]);
    let ghost n = end - begin;
    let mut shared: Vec<GradientPairInt64> = Vec::with_capacity(block as usize);
    let mut t: u32 = 0;
    while t < block
        invariant
            begin <= end <= gpairs.len(),
            end + block <= usize::MAX,
            f == (|k: int| exact(gpairs[begin + k])),
            n == end - begin,
            t <= block,
            shared.len() == t,
            forall|u: int| 0 <= u < t ==> #[trigger] shared[u] == wrap(unit_sum(f, u, block as int, n)),
        decreases block - t,
    {
        shared.push(unit_total(gpairs, begin, end, t as usize, block as usize));
        t += 1;
    }
    let ghost units = shared@;
    proof {
        let k = choose|k: nat| block == #[trigger] pow2(k);
        vstd::arithmetic::power2::lemma_pow2_pos(k);
        assert(block as usize == pow2(k));
    }
    reduce_tree(&mut shared, block as usize);
    proof {
        let sums = |t: int| unit_sum(f, t, block as int, n);
        let held = |t: int| exact(units[t]);
        assert forall|u: int| 0 <= u < block implies #[trigger] held(u) == exact(wrap(sums(u))) by {
            assert(units[u] == wrap(unit_sum(f, u, block as int, n)));
        }
        lemma_total_wrapped(block as int, sums, held);
        lemma_units_total(f, block as int, n);
        lemma_total_same(block as int, held, |t: int| exact(units[t]));
    }
    shared[0]
}

/// The exact sum of a quantised column: per-cube partial sums, added in cube order.
pub fn sum_device_column(hardware: &Hardware, gpairs: &Vec<GradientPairInt64>) -> (sum: GradientPairInt64)
    requires
        gpairs.len() <= u32::MAX,
        gpairs.len() + hardware.block(256) <= usize::MAX,
        hardware.block(256) * 16 <= u32::MAX,
    ensures
        sum == wrap(column_sum(gpairs@)),
{
    let n: usize = gpairs.len();
    let (block, cubes, chunk) = reduce_geometry(hardware, n as u32);
    let ghost f = |i: int| exact(gpairs[i]);
    let mut sum = GradientPairInt64 { grad: 0, hess: 0 };
    let mut begin: usize = 0;
    let mut c: u32 = 0;
    proof {
        lemma_wrap_exact(sum);
    }
    while c < cubes
        invariant
            n == gpairs.len(),
            n <= u32::MAX,
            n + block <= usize::MAX,
            exists|k: nat| block == #[trigger] pow2(k),
            f == (|i: int| exact(gpairs[i])),
            chunk >= 1,
            c <= cubes,
            begin == min_of(c * chunk, n as int),
            begin <= n,
            sum == wrap(total(begin as int, f)),
        decreases cubes - c,
    {
        // The last cubes may have fewer rows, or none.
        let end: usize = if n - begin < chunk as usize {
            n
        } else {
            begin + chunk as usize
        };
        let part: GradientPairInt64 = gpair_sum_kernel(gpairs, begin, end, block);
        proof {
            let m = end - begin;
            lemma_total_split(begin as int, m, f);
            lemma_total_same(m, |i: int| f(begin + i), |k: int| exact(gpairs[begin + k]));
            lemma_wrap_plus(total(begin as int, f), total(m, |k: int| exact(gpairs[begin + k])));
            assert((c + 1) * chunk == c * chunk + chunk) by (nonlinear_arith);
        }
        sum = sum.wrapping_add(part);
        begin = end;
        c += 1;
    }
    assert(begin == n);
    sum
}

/// The exponent of a number is the power of two that the number stays below and that no smaller one
/// does: the number is not below the power before. The powers of two are the bit patterns without a
/// mantissa.
pub proof fn lemma_exponent_bounds(bits: u64, e: int)
    requires
        0x10_0000_0000_0000 <= wide_magnitude(bits) < WIDE_INF_BITS,
        is_exponent(bits, e),
    ensures
        (e + 1022) * 0x10_0000_0000_0000 <= wide_magnitude(bits) < (e + 1023) * 0x10_0000_0000_0000,
{
}

/// The ceiling of a number is the least power of two that the number does not go above.
pub proof fn lemma_ceiling_bounds(bits: u64, c: int)
    requires
        0x10_0000_0000_0000 <= wide_magnitude(bits) < WIDE_INF_BITS,
        is_ceiling(bits, c),
    ensures
        (c + 1022) * 0x10_0000_0000_0000 < wide_magnitude(bits) <= (c + 1023) * 0x10_0000_0000_0000,
{
}

/// The sign makes no difference to the size of a number.
pub proof fn lemma_wide_magnitude(bits: u64)
    requires
        bits < 0x8000_0000_0000_0000,
    ensures
        wide_magnitude(bits) == bits,
        wide_magnitude((bits + 0x8000_0000_0000_0000) as u64) == bits,
{
}

} // verus!
