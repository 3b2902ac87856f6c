//! The histogram kernel in its cooperative shape, executed over its whole grid.
//!
//! The grid has one cube per block of tiles, feature group and node. A cube walks its
//! share of the `(row, feature)` pairs of its group, a tile at a time, and adds each to a
//! histogram of the group's bins in shared memory, which it flushes to the node's slot at
//! the end; or it adds straight to the slot. The result is the node's histogram whatever
//! the grid: every pair is visited by exactly one unit of one cube, and the order of the
//! additions does not matter.

use vstd::prelude::*;

use crate::gpu::ellpack::{load_bin, DeviceEllpack};
use crate::gpu::histogram::{
    bins_below, global_bin, histogram, node_sum, row_part, row_sum, rows_ok, visit, ITEMS_PER_THREAD,
};
use crate::gpu::launch::{ceil_div, lemma_ceil_div};
use crate::gpu::pairs::{
    exact, lemma_total_plus, lemma_total_same, lemma_total_split, lemma_total_zero, lemma_wrap_plus, plus,
    total, wrap, wrap_i64, zero, PairSum,
};
use crate::gpu::row_partitioner::{has_row, lemma_entry_in_buffer};
use crate::gpu::GradientPairInt64;

verus! {

/// A contiguous run of features sharing one shared-memory histogram.
#[derive(Clone, Copy, Debug, PartialEq, Eq, Structural)]
pub struct FeatureGroup {
    pub start_feature: u32,
    pub num_features: u32,
    pub start_bin: u32,
    pub num_bins: u32,
}

// ---------------------------------------------------------- 64-bit words ----

/// The 64-bit integer that two 32-bit words hold, low word first.
pub open spec fn joined(lo: u32, hi: u32) -> i64 {
    wrap_i64(lo + hi * 0x1_0000_0000)
}

/// Take a 64-bit integer apart into its two 32-bit words, low word first.
pub fn split_words(val: i64) -> (words: (u32, u32))
    ensures
        joined(words.0, words.1) == val,
{
    let bits: u64 = if val >= 0 {
        val as u64
    } else {
        val.wrapping_add(i64::MIN) as u64 + 0x8000_0000_0000_0000
    };
    let lo: u32 = (bits % 0x1_0000_0000) as u32;
    let hi: u32 = (bits / 0x1_0000_0000) as u32;
    (lo, hi)
}

/// Put a 64-bit integer together from its two 32-bit words, low word first.
pub fn join_words(lo: u32, hi: u32) -> (val: i64)
    ensures
        val == joined(lo, hi),
{
    let bits: u64 = hi as u64 * 0x1_0000_0000 + lo as u64;
    if bits < 0x8000_0000_0000_0000 {
        bits as i64
    } else {
        (bits - 0x8000_0000_0000_0000) as i64 + i64::MIN
    }
}

/// Add a 64-bit integer into two 32-bit words, low word first, with 32-bit additions and
/// a carry.
pub fn add_i64_as_u32(words: (u32, u32), val: i64) -> (sum: (u32, u32))
    ensures
        joined(sum.0, sum.1) == wrap_i64(joined(words.0, words.1) + val),
{
    let (lo, hi) = split_words(val);
    let carry: u32 = if words.0 > 0xFFFF_FFFF - lo {
        1
    } else {
        0
    };
    let low: u32 = words.0.wrapping_add(lo);
    let high: u32 = words.1.wrapping_add(hi.wrapping_add(carry));
    proof {
        let m: int = 0x1_0000_0000;
        let a = words.0 + words.1 * m;
        let b = lo + hi * m;
        let c = low + high * m;
        let p = if words.0 + lo > 0xFFFF_FFFF {
            1int
        } else {
            0int
        };
        assert(low == words.0 + lo - p * m);
        let q = if hi + p > 0xFFFF_FFFF {
            1int
        } else {
            0int
        };
        let r = if words.1 + (hi + p - q * m) > 0xFFFF_FFFF {
            1int
        } else {
            0int
        };
        assert(high == words.1 + hi + p - q * m - r * m);
        assert(c == a + b - (q + r) * (m * m)) by (nonlinear_arith)
            requires
                c == low + high * m,
                a == words.0 + words.1 * m,
                b == lo + hi * m,
                low == words.0 + lo - p * m,
                high == words.1 + hi + p - q * m - r * m,
        ;
        lemma_joined_sum(a, b, c, q + r);
    }
    (low, high)
}

/// Sums of words that differ by a multiple of `2^64` are the same 64-bit integer.
proof fn lemma_joined_sum(a: int, b: int, c: int, k: int)
    requires
        c == a + b - k * 0x1_0000_0000_0000_0000,
    ensures
        wrap_i64(c) == wrap_i64(wrap_i64(a) + wrap_i64(b)),
{
    let x = PairSum { grad: a, hess: 0 };
    let y = PairSum { grad: b, hess: 0 };
    lemma_wrap_plus(x, y);
    assert(wrap(plus(exact(wrap(x)), exact(wrap(y)))).grad == wrap_i64(wrap_i64(a) + wrap_i64(b)));
    assert(wrap(plus(x, y)).grad == wrap_i64(a + b));
    crate::gpu::pairs::lemma_wrap_multiple(a + b, -k);
    assert((-k) * 0x1_0000_0000_0000_0000 == -(k * 0x1_0000_0000_0000_0000)) by (nonlinear_arith);
}

/// Add a gradient pair to a bin: natively, or as four 32-bit words with carries.
fn add_gpair(native_i64: bool, cell: GradientPairInt64, g: GradientPairInt64) -> (sum: GradientPairInt64)
    ensures
        sum == wrap(plus(exact(cell), exact(g))),
{
    if native_i64 {
        cell.wrapping_add(g)
    } else {
        let (grad_lo, grad_hi) = add_i64_as_u32(split_words(cell.grad), g.grad);
        let (hess_lo, hess_hi) = add_i64_as_u32(split_words(cell.hess), g.hess);
        GradientPairInt64 { grad: join_words(grad_lo, grad_hi), hess: join_words(hess_lo, hess_hi) }
    }
}

// -------------------------------------------------------------- the sums ----

/// Summing rows of terms one after the other.
proof fn lemma_total_nested(n: int, m: int, f: spec_fn(int, int) -> PairSum)
    requires
        0 <= n,
        0 < m,
    ensures
        total(n * m, |k: int| f(k / m, k % m)) == total(n, |i: int| total(m, |j: int| f(i, j))),
    decreases n,
{
    let flat = |k: int| f(k / m, k % m);
    if n > 0 {
        lemma_total_nested(n - 1, m, f);
        assert(n * m == (n - 1) * m + m) by (nonlinear_arith);
        assert(0 <= (n - 1) * m) by (nonlinear_arith)
            requires
                0 <= n - 1,
                0 < m,
        ;
        lemma_total_split((n - 1) * m, m, flat);
        assert forall|i: int| 0 <= i < m implies #[trigger] flat((n - 1) * m + i) == f(n - 1, i) by {
            vstd::arithmetic::div_mod::lemma_fundamental_div_mod_converse((n - 1) * m + i, m, n - 1, i);
        }
        lemma_total_same(m, |i: int| flat((n - 1) * m + i), |j: int| f(n - 1, j));
    } else {
        assert(0 * m == 0) by (nonlinear_arith);
    }
}

/// The terms whose index leaves remainder `x` when divided by `n`, below `t`.
spec fn class_sum(n: int, g: spec_fn(int) -> PairSum, x: int, t: int) -> PairSum {
    total(t, |i: int| in_class(n, g, x, i))
}

spec fn in_class(n: int, g: spec_fn(int) -> PairSum, x: int, i: int) -> PairSum {
    if i % n == x {
        g(i)
    } else {
        zero()
    }
}

/// A class has one term in every `n`.
proof fn lemma_class_step(n: int, g: spec_fn(int) -> PairSum, x: int, t: int)
    requires
        0 < n,
        0 <= t,
        t % n == x,
    ensures
        class_sum(n, g, x, t + n) == plus(class_sum(n, g, x, t), g(t)),
{
    let f = |i: int| in_class(n, g, x, i);
    lemma_total_split(t + 1, n - 1, f);
    assert forall|i: int| 0 <= i < n - 1 implies #[trigger] f(t + 1 + i) == zero() by {
        vstd::arithmetic::div_mod::lemma_fundamental_div_mod(t, n);
        let d = i + 1;
        assert(n * (t / n) == (t / n) * n) by (nonlinear_arith);
        assert((t / n + 1) * n == (t / n) * n + n) by (nonlinear_arith);
        if x + d < n {
            vstd::arithmetic::div_mod::lemma_fundamental_div_mod_converse(t + d, n, t / n, x + d);
        } else {
            vstd::arithmetic::div_mod::lemma_fundamental_div_mod_converse(t + d, n, t / n + 1, x + d - n);
        }
    }
    lemma_total_zero(n - 1, |i: int| f(t + 1 + i));
}

/// A class has no term past the last index.
proof fn lemma_class_end(n: int, g: spec_fn(int) -> PairSum, x: int, t: int, end: int)
    requires
        0 <= end <= t,
        forall|i: int| end <= i < t ==> in_class(n, g, x, i) == zero(),
    ensures
        class_sum(n, g, x, t) == class_sum(n, g, x, end),
    decreases t - end,
{
    if end < t {
        lemma_class_end(n, g, x, t - 1, end);
        assert(in_class(n, g, x, t - 1) == zero());
    }
}

/// The classes together are all the terms.
proof fn lemma_class_total(n: int, g: spec_fn(int) -> PairSum, t: int)
    requires
        0 < n,
        0 <= t,
    ensures
        total(n, |x: int| class_sum(n, g, x, t)) == total(t, g),
    decreases t,
{
    let now = |x: int| class_sum(n, g, x, t);
    if t == 0 {
        lemma_total_zero(n, now);
    } else {
        lemma_class_total(n, g, t - 1);
        let was = |x: int| class_sum(n, g, x, t - 1);
        let one = |x: int| in_class(n, g, x, t - 1);
        lemma_total_plus(n, was, one);
        lemma_total_same(n, |x: int| plus(was(x), one(x)), now);
        lemma_one_class(n, g, t - 1, n);
    }
}

/// Every term is in one class.
proof fn lemma_one_class(n: int, g: spec_fn(int) -> PairSum, i: int, m: int)
    requires
        0 < n,
        0 <= i,
        0 <= m <= n,
    ensures
        total(m, |x: int| in_class(n, g, x, i)) == (if i % n < m {
            g(i)
        } else {
            zero()
        }),
    decreases m,
{
    if m > 0 {
        lemma_one_class(n, g, i, m - 1);
    }
}

// ------------------------------------------------------------ the kernel ----

/// Entries of a row that a cube of the group walks.
pub open spec fn feature_stride(ell: &DeviceEllpack, group: &FeatureGroup) -> int {
    if ell.compressed {
        group.num_features as int
    } else {
        ell.row_stride as int
    }
}

/// What `(row, feature)` pair `k` of the group adds to bin `b`.
spec fn element(
    ell: &DeviceEllpack,
    gpairs: Seq<GradientPairInt64>,
    group: &FeatureGroup,
    rows: Seq<u32>,
    b: int,
    k: int,
) -> PairSum {
    let stride = feature_stride(ell, group);
    if 0 <= k < rows.len() * stride {
        visit(ell, gpairs, rows[k / stride], b, group.start_feature + k % stride)
    } else {
        zero()
    }
}

/// What the pairs of tile `t` add to bin `b`, the first `n` of them.
spec fn tile_part(
    ell: &DeviceEllpack,
    gpairs: Seq<GradientPairInt64>,
    group: &FeatureGroup,
    rows: Seq<u32>,
    b: int,
    start: int,
    n: int,
) -> PairSum {
    total(n, |k: int| element(ell, gpairs, group, rows, b, start + k))
}

/// What the tiles of one cube add to bin `b`, below tile `t`.
spec fn cube_part(
    ell: &DeviceEllpack,
    gpairs: Seq<GradientPairInt64>,
    group: &FeatureGroup,
    rows: Seq<u32>,
    b: int,
    size: int,
    cubes: int,
    x: int,
    t: int,
) -> PairSum {
    class_sum(cubes, |i: int| tile_part(ell, gpairs, group, rows, b, i * size, size), x, t)
}

/// What the group's features of the rows add to bin `b`.
pub open spec fn group_sum(
    ell: &DeviceEllpack,
    gpairs: Seq<GradientPairInt64>,
    group: &FeatureGroup,
    rows: Seq<u32>,
    b: int,
) -> PairSum {
    total(
        rows.len() as int,
        |i: int|
            total(
                feature_stride(ell, group),
                |j: int| visit(ell, gpairs, rows[i], b, group.start_feature + j),
            ),
    )
}

/// The tiles hold every pair of the group once.
proof fn lemma_tiles_total(
    ell: &DeviceEllpack,
    gpairs: Seq<GradientPairInt64>,
    group: &FeatureGroup,
    rows: Seq<u32>,
    b: int,
    size: int,
    tiles: int,
)
    requires
        0 < size,
        0 <= tiles,
        rows.len() * feature_stride(ell, group) <= tiles * size,
    ensures
        total(tiles, |i: int| tile_part(ell, gpairs, group, rows, b, i * size, size)) == group_sum(
            ell,
            gpairs,
            group,
            rows,
            b,
        ),
{
    let stride = feature_stride(ell, group);
    let n = rows.len() as int;
    let cells = n * stride;
    let flat = |k: int| element(ell, gpairs, group, rows, b, k);
    let two = |i: int, j: int| element(ell, gpairs, group, rows, b, i * size + j);
    let by_tile = |i: int| tile_part(ell, gpairs, group, rows, b, i * size, size);
    // The tiles, one after the other, are the pairs in order.
    lemma_total_nested(tiles, size, two);
    assert forall|i: int| 0 <= i < tiles implies #[trigger] by_tile(i) == total(size, |j: int| two(i, j)) by {
        lemma_total_same(size, |k: int| element(ell, gpairs, group, rows, b, i * size + k), |j: int| two(i, j));
    }
    lemma_total_same(tiles, by_tile, |i: int| total(size, |j: int| two(i, j)));
    assert forall|k: int| 0 <= k < tiles * size implies #[trigger] flat(k) == two(k / size, k % size) by {
        vstd::arithmetic::div_mod::lemma_fundamental_div_mod(k, size);
        assert(size * (k / size) == (k / size) * size) by (nonlinear_arith);
    }
    lemma_total_same(tiles * size, flat, |k: int| two(k / size, k % size));
    // Past the last pair there is nothing.
    assert(0 <= cells) by (nonlinear_arith)
        requires
            0 <= n,
            0 <= stride,
            cells == n * stride,
    ;
    lemma_total_split(cells, tiles * size - cells, flat);
    lemma_total_zero(tiles * size - cells, |i: int| flat(cells + i));
    // The pairs in order are the rows, one after the other.
    let pair = |i: int, j: int| visit(ell, gpairs, rows[i], b, group.start_feature + j);
    let by_row = |i: int|
        total(
            feature_stride(ell, group),
            |j: int| visit(ell, gpairs, rows[i], b, group.start_feature + j),
        );
    if stride > 0 {
        lemma_total_nested(n, stride, pair);
        lemma_total_same(cells, flat, |k: int| pair(k / stride, k % stride));
        assert forall|i: int| 0 <= i < n implies #[trigger] by_row(i) == total(stride, |j: int| pair(i, j)) by {
            lemma_total_same(
                stride,
                |j: int| visit(ell, gpairs, rows[i], b, group.start_feature + j),
                |j: int| pair(i, j),
            );
        }
        lemma_total_same(n, by_row, |i: int| total(stride, |j: int| pair(i, j)));
    } else {
        assert(cells == 0) by (nonlinear_arith)
            requires
                stride == 0,
                cells == n * stride,
        ;
        lemma_total_zero(n, by_row);
    }
}

/// Every bin that the group's features fall into is one of the `n` from `first` on.
pub open spec fn group_bins(ell: &DeviceEllpack, group: &FeatureGroup, first: int, n: int) -> bool {
    &&& ell.wf()
    &&& group.start_feature + feature_stride(ell, group) <= ell.row_stride
    &&& ell.compressed ==> ell.row_stride <= ell.cut_ptrs.len()
    &&& forall|row: u32, f: int|
        has_row(ell, row) && group.start_feature <= f < group.start_feature + feature_stride(ell, group)
            ==> match #[trigger] global_bin(ell, row, f) {
            Some(g) => first <= g < first + n && g <= u32::MAX,
            None => true,
        }
}

/// One cube of the grid: cube `x` of `cubes`, `dim` units wide, walks its tiles of the
/// group's `(row, feature)` pairs and adds each to the bins from `base` on, of which the
/// first is bin `first`.
fn hist_cube(
    ell: &DeviceEllpack,
    ridx: &Vec<u32>,
    gpairs: &Vec<GradientPairInt64>,
    group: &FeatureGroup,
    ridx_base: u32,
    n_ridx: u32,
    x: u32,
    cubes: u32,
    dim: u32,
    native_i64: bool,
    acc: &mut Vec<GradientPairInt64>,
    base: usize,
    first: u32,
    n: usize,
    Ghost(start): Ghost<spec_fn(int) -> PairSum>,
)
    requires
        group_bins(ell, group, first as int, n as int),
        ridx_base + n_ridx <= ridx.len(),
        rows_ok(ell, gpairs@, ridx@.subrange(ridx_base as int, ridx_base + n_ridx)),
        n_ridx * feature_stride(ell, group) <= u32::MAX,
        x < cubes,
        0 < dim,
        base + n <= old(acc).len(),
        forall|i: int| 0 <= i < n ==> #[trigger] old(acc)[base + i] == wrap(start(first + i)),
    ensures
        final(acc).len() == old(acc).len(),
        forall|i: int|
            0 <= i < n ==> #[trigger] final(acc)[base + i] == wrap(
                plus(
                    start(first + i),
                    cube_total(
                        ell,
                        gpairs@,
                        group,
                        ridx@.subrange(ridx_base as int, ridx_base + n_ridx),
                        first + i,
                        dim * ITEMS_PER_THREAD,
                        cubes as int,
                        x as int,
                    ),
                ),
            ),
        forall|i: int|
            0 <= i < old(acc).len() && !(base <= i < base + n) ==> #[trigger] final(acc)[i] == old(acc)[i],
{
    let ghost rows = ridx@.subrange(ridx_base as int, ridx_base + n_ridx);
    let ghost before = acc@;
    let stride: u32 = if ell.compressed {
        group.num_features
    } else {
        ell.row_stride
    };
    let ghost cells = n_ridx * stride;
    proof {
        assert(0 <= cells) by (nonlinear_arith)
            requires
                0 <= n_ridx,
                0 <= stride,
                cells == n_ridx * stride,
        ;
    }
    let n_elements: u64 = n_ridx as u64 * stride as u64;
    assert(0 < dim * ITEMS_PER_THREAD <= u32::MAX * 8) by (nonlinear_arith)
        requires
            0 < dim <= u32::MAX,
            ITEMS_PER_THREAD == 8,
    ;
    let tile: u64 = dim as u64 * ITEMS_PER_THREAD as u64;
    let ghost size = dim * ITEMS_PER_THREAD;
    proof {
        lemma_ceil_div(cells, size);
    }
    // The number of tiles, and the tile this cube is at.
    let tiles: u64 = if n_elements % tile == 0 {
        n_elements / tile
    } else {
        n_elements / tile + 1
    };
    let ghost g = |b: int, t: int| cube_part(ell, gpairs@, group, rows, b, size, cubes as int, x as int, t);
    let mut t: u64 = x as u64;
    proof {
        assert forall|i: int| 0 <= i < n implies #[trigger] acc[base + i] == wrap(
            plus(start(first + i), g(first + i, t as int)),
        ) by {
            let b = first + i;
            let f = |k: int| tile_part(ell, gpairs@, group, rows, b, k * size, size);
            assert forall|k: int| 0 <= k < x implies in_class(cubes as int, f, x as int, k) == zero() by {
                vstd::arithmetic::div_mod::lemma_small_mod(k as nat, cubes as nat);
            }
            lemma_class_end(cubes as int, f, x as int, x as int, 0);
            assert(plus(start(b), zero()) == start(b));
        }
        vstd::arithmetic::div_mod::lemma_small_mod(x as nat, cubes as nat);
    }
    while t < tiles
        invariant
            group_bins(ell, group, first as int, n as int),
            ridx_base + n_ridx <= ridx.len(),
            rows == ridx@.subrange(ridx_base as int, ridx_base + n_ridx),
            rows_ok(ell, gpairs@, rows),
            x < cubes,
            0 < dim,
            stride == feature_stride(ell, group),
            cells == n_ridx * stride,
            n_elements == cells,
            tile == size,
            size == dim * ITEMS_PER_THREAD,
            tiles == ceil_div(cells, size),
            tiles * size < cells + size,
            cells <= u32::MAX,
            base + n <= acc.len(),
            acc.len() == before.len(),
            t % (cubes as u64) == x,
            t < tiles + cubes,
            g == (|b: int, t: int| cube_part(ell, gpairs@, group, rows, b, size, cubes as int, x as int, t)),
            forall|i: int|
                0 <= i < n ==> #[trigger] acc[base + i] == wrap(plus(start(first + i), g(first + i, t as int))),
            forall|i: int|
                0 <= i < before.len() && !(base <= i < base + n) ==> #[trigger] acc[i] == before[i],
        decreases tiles + cubes - t,
    {
        proof {
            assert(t * size < cells && 0 <= t * size) by (nonlinear_arith)
                requires
                    0 <= t,
                    t + 1 <= tiles,
                    tiles * size < cells + size,
                    0 < size,
            ;
        }
        let ghost here = |b: int| plus(start(b), g(b, t as int));
        let begin: u64 = t * tile;
        // Unit `k % dim` takes pairs `k`, a whole cube apart.
        let mut k: u64 = 0;
        proof {
            assert forall|i: int| 0 <= i < n implies #[trigger] acc[base + i] == wrap(
                plus(here(first + i), tile_part(ell, gpairs@, group, rows, first + i, begin as int, 0)),
            ) by {
                assert(plus(here(first + i), zero()) == here(first + i));
            }
        }
        while k < tile
            invariant
                group_bins(ell, group, first as int, n as int),
                ridx_base + n_ridx <= ridx.len(),
                rows == ridx@.subrange(ridx_base as int, ridx_base + n_ridx),
                rows_ok(ell, gpairs@, rows),
                stride == feature_stride(ell, group),
                cells == n_ridx * stride,
                n_elements == cells,
                cells <= u32::MAX,
                tile == size,
                size == dim * ITEMS_PER_THREAD,
                begin < cells,
                base + n <= acc.len(),
                acc.len() == before.len(),
                k <= tile,
                forall|i: int|
                    0 <= i < n ==> #[trigger] acc[base + i] == wrap(
                        plus(
                            here(first + i),
                            tile_part(ell, gpairs@, group, rows, first + i, begin as int, k as int),
                        ),
                    ),
                forall|i: int|
                    0 <= i < before.len() && !(base <= i < base + n) ==> #[trigger] acc[i] == before[i],
            decreases tile - k,
        {
            let idx: u64 = begin + k;
            let ghost so_far = |b: int|
                plus(here(b), tile_part(ell, gpairs@, group, rows, b, begin as int, k as int));
            let ghost was = acc@;
            if idx < n_elements {
                proof {
                    assert(stride > 0) by (nonlinear_arith)
                        requires
                            idx < n_ridx * stride,
                            0 <= idx,
                            0 <= stride,
                    ;
                    vstd::arithmetic::div_mod::lemma_fundamental_div_mod(idx as int, stride as int);
                    let q = (idx as int) / (stride as int);
                    let m = (idx as int) % (stride as int);
                    assert(q < n_ridx) by (nonlinear_arith)
                        requires
                            idx < n_ridx * stride,
                            stride > 0,
                            idx == stride * q + m,
                            0 <= m,
                    ;
                }
                let in_set: usize = (idx / stride as u64) as usize;
                let in_group: u32 = (idx % stride as u64) as u32;
                let row: u32 = ridx[ridx_base as usize + in_set];
                assert(rows[in_set as int] == row);
                let fidx: u32 = in_group + group.start_feature;
                hist_visit(ell, gpairs, acc, base, first, n, group, row, fidx, native_i64, Ghost(so_far));
            }
            proof {
                assert forall|i: int| 0 <= i < n implies #[trigger] acc[base + i] == wrap(
                    plus(
                        here(first + i),
                        tile_part(ell, gpairs@, group, rows, first + i, begin as int, k + 1),
                    ),
                ) by {
                    let b = first + i;
                    let e = element(ell, gpairs@, group, rows, b, begin + k);
                    assert(was[base + i] == wrap(so_far(b)));
                    assert(plus(so_far(b), e) == plus(
                        here(b),
                        tile_part(ell, gpairs@, group, rows, b, begin as int, k + 1),
                    ));
                    if idx >= n_elements {
                        assert(plus(so_far(b), zero()) == so_far(b));
                    }
                }
            }
            k += 1;
        }
        proof {
            assert forall|i: int| 0 <= i < n implies #[trigger] acc[base + i] == wrap(
                plus(start(first + i), g(first + i, t + cubes)),
            ) by {
                let b = first + i;
                let f = |k: int| tile_part(ell, gpairs@, group, rows, b, k * size, size);
                lemma_class_step(cubes as int, f, x as int, t as int);
                assert(begin == t * size);
                assert(plus(here(b), tile_part(ell, gpairs@, group, rows, b, begin as int, size)) == plus(
                    start(b),
                    g(b, t + cubes),
                ));
            }
            vstd::arithmetic::div_mod::lemma_mod_add_multiples_vanish(t as int, cubes as int);
            assert((t + cubes) % (cubes as int) == x);
        }
        t += cubes as u64;
    }
    proof {
        assert forall|i: int| 0 <= i < n implies #[trigger] acc[base + i] == wrap(
            plus(
                start(first + i),
                cube_total(ell, gpairs@, group, rows, first + i, size, cubes as int, x as int),
            ),
        ) by {
            let b = first + i;
            let f = |k: int| tile_part(ell, gpairs@, group, rows, b, k * size, size);
            assert forall|k: int| tiles <= k < t implies in_class(cubes as int, f, x as int, k) == zero() by {
                if k % (cubes as int) == x {
                    lemma_same_class(k, t as int, cubes as int);
                }
            }
            lemma_class_end(cubes as int, f, x as int, t as int, tiles as int);
        }
    }
}

/// Members of a class stand a whole number of steps apart.
proof fn lemma_same_class(a: int, b: int, n: int)
    requires
        0 <= a < b,
        0 < n,
        a % n == b % n,
    ensures
        a + n <= b,
{
    vstd::arithmetic::div_mod::lemma_fundamental_div_mod(a, n);
    vstd::arithmetic::div_mod::lemma_fundamental_div_mod(b, n);
    assert(a + n <= b) by (nonlinear_arith)
        requires
            a == n * (a / n) + a % n,
            b == n * (b / n) + b % n,
            a % n == b % n,
            a < b,
            0 < n,
    ;
}

/// What cube `x` of `cubes` adds to bin `b`.
spec fn cube_total(
    ell: &DeviceEllpack,
    gpairs: Seq<GradientPairInt64>,
    group: &FeatureGroup,
    rows: Seq<u32>,
    b: int,
    size: int,
    cubes: int,
    x: int,
) -> PairSum {
    cube_part(
        ell,
        gpairs,
        group,
        rows,
        b,
        size,
        cubes,
        x,
        ceil_div(rows.len() * feature_stride(ell, group), size),
    )
}

/// One `(row, feature)` visit of a unit.
fn hist_visit(
    ell: &DeviceEllpack,
    gpairs: &Vec<GradientPairInt64>,
    acc: &mut Vec<GradientPairInt64>,
    base: usize,
    first: u32,
    n: usize,
    group: &FeatureGroup,
    row: u32,
    fidx: u32,
    native_i64: bool,
    Ghost(so_far): Ghost<spec_fn(int) -> PairSum>,
)
    requires
        group_bins(ell, group, first as int, n as int),
        has_row(ell, row),
        row < gpairs.len(),
        group.start_feature <= fidx < group.start_feature + feature_stride(ell, group),
        base + n <= old(acc).len(),
        forall|i: int| 0 <= i < n ==> #[trigger] old(acc)[base + i] == wrap(so_far(first + i)),
    ensures
        final(acc).len() == old(acc).len(),
        forall|i: int|
            0 <= i < n ==> #[trigger] final(acc)[base + i] == wrap(
                plus(so_far(first + i), visit(ell, gpairs@, row, first + i, fidx as int)),
            ),
        forall|i: int|
            0 <= i < old(acc).len() && !(base <= i < base + n) ==> #[trigger] final(acc)[i] == old(acc)[i],
{
    let r: u32 = row - ell.base_rowid;
    let ghost cells = ell.n_rows * ell.row_stride;
    proof {
        assert(0 <= r * ell.row_stride && r * ell.row_stride + fidx < cells) by (nonlinear_arith)
            requires
                0 <= fidx < ell.row_stride,
                0 <= r < ell.n_rows,
                cells == ell.n_rows * ell.row_stride,
        ;
        lemma_entry_in_buffer(cells, ell.bits as int, r * ell.row_stride + fidx);
    }
    let bin: u32 = load_bin(ell.gidx.as_slice(), r * ell.row_stride + fidx, ell.bits);
    let ghost was = acc@;
    if ell.dense || bin != ell.null_value {
        assert(global_bin(ell, row, fidx as int) is Some);
        let global: u32 = if ell.compressed {
            bin + ell.cut_ptrs[fidx as usize]
        } else {
            bin
        };
        assert(global_bin(ell, row, fidx as int) == Some(global as int));
        let at: usize = base + (global - first) as usize;
        let g: GradientPairInt64 = gpairs[row as usize];
        let cell: GradientPairInt64 = acc[at];
        acc[at] = add_gpair(native_i64, cell, g);
        proof {
            assert forall|i: int| 0 <= i < n implies #[trigger] acc[base + i] == wrap(
                plus(so_far(first + i), visit(ell, gpairs@, row, first + i, fidx as int)),
            ) by {
                assert(was[base + i] == wrap(so_far(first + i)));
                lemma_wrap_plus(so_far(first + i), exact(g));
                assert(plus(so_far(first + i), zero()) == so_far(first + i));
            }
        }
    } else {
        assert(global_bin(ell, row, fidx as int) is None);
        proof {
            assert forall|i: int| 0 <= i < n implies #[trigger] acc[base + i] == wrap(
                plus(so_far(first + i), visit(ell, gpairs@, row, first + i, fidx as int)),
            ) by {
                assert(was[base + i] == wrap(so_far(first + i)));
                assert(plus(so_far(first + i), zero()) == so_far(first + i));
            }
        }
    }
}

/// The cubes of a group together visit every pair of the group once.
proof fn lemma_cubes_total(
    ell: &DeviceEllpack,
    gpairs: Seq<GradientPairInt64>,
    group: &FeatureGroup,
    rows: Seq<u32>,
    b: int,
    size: int,
    cubes: int,
)
    requires
        0 < size,
        0 < cubes,
    ensures
        total(cubes, |x: int| cube_total(ell, gpairs, group, rows, b, size, cubes, x)) == group_sum(
            ell,
            gpairs,
            group,
            rows,
            b,
        ),
{
    let cells = rows.len() * feature_stride(ell, group);
    assert(0 <= cells) by (nonlinear_arith)
        requires
            cells == rows.len() * feature_stride(ell, group),
            0 <= feature_stride(ell, group),
    ;
    lemma_ceil_div(cells, size);
    let tiles = ceil_div(cells, size);
    let f = |k: int| tile_part(ell, gpairs, group, rows, b, k * size, size);
    lemma_class_total(cubes, f, tiles);
    lemma_total_same(
        cubes,
        |x: int| cube_total(ell, gpairs, group, rows, b, size, cubes, x),
        |x: int| class_sum(cubes, f, x, tiles),
    );
    lemma_tiles_total(ell, gpairs, group, rows, b, size, tiles);
}

/// The first feature of group `y`, or the end of the features past the last group.
pub open spec fn group_start(ell: &DeviceEllpack, groups: Seq<FeatureGroup>, y: int) -> int {
    if y < groups.len() {
        groups[y].start_feature as int
    } else {
        ell.row_stride as int
    }
}

/// The groups hold every entry of a row once: consecutive runs of features where bins are
/// feature-local, a single group of everything where they are global.
pub open spec fn groups_tile(ell: &DeviceEllpack, groups: Seq<FeatureGroup>) -> bool {
    &&& groups.len() > 0
    &&& groups[0].start_feature == 0
    &&& !ell.compressed ==> groups.len() == 1
    &&& ell.compressed ==> forall|y: int|
        0 <= y < groups.len() ==> (#[trigger] groups[y]).start_feature + groups[y].num_features == group_start(
            ell,
            groups,
            y + 1,
        )
}

/// What the first `m` groups add to bin `b`.
spec fn groups_part(
    ell: &DeviceEllpack,
    gpairs: Seq<GradientPairInt64>,
    groups: Seq<FeatureGroup>,
    rows: Seq<u32>,
    b: int,
    m: int,
) -> PairSum {
    total(m, |y: int| group_sum(ell, gpairs, &groups[y], rows, b))
}

/// The groups together visit every entry of the rows once.
proof fn lemma_groups_total(
    ell: &DeviceEllpack,
    gpairs: Seq<GradientPairInt64>,
    groups: Seq<FeatureGroup>,
    rows: Seq<u32>,
    b: int,
    m: int,
)
    requires
        groups_tile(ell, groups),
        0 <= m <= groups.len(),
    ensures
        groups_part(ell, gpairs, groups, rows, b, m) == total(
            rows.len() as int,
            |i: int| row_part(ell, gpairs, rows[i], b, group_start(ell, groups, m)),
        ),
    decreases m,
{
    let n = rows.len() as int;
    let now = |i: int| row_part(ell, gpairs, rows[i], b, group_start(ell, groups, m));
    if m == 0 {
        lemma_total_zero(n, now);
    } else {
        lemma_groups_total(ell, gpairs, groups, rows, b, m - 1);
        let group = groups[m - 1];
        let from = group_start(ell, groups, m - 1);
        let stride = feature_stride(ell, &group);
        assert(from + stride == group_start(ell, groups, m));
        let was = |i: int| row_part(ell, gpairs, rows[i], b, from);
        let more = |i: int|
            total(
                feature_stride(ell, &group),
                |j: int| visit(ell, gpairs, rows[i], b, group.start_feature + j),
            );
        assert forall|i: int| 0 <= i < n implies #[trigger] now(i) == plus(was(i), more(i)) by {
            let f = |f: int| visit(ell, gpairs, rows[i], b, f);
            lemma_total_split(from, stride, f);
            lemma_total_same(
                stride,
                |k: int| f(from + k),
                |j: int| visit(ell, gpairs, rows[i], b, group.start_feature + j),
            );
        }
        lemma_total_plus(n, was, more);
        lemma_total_same(n, now, |i: int| plus(was(i), more(i)));
        lemma_total_same(n, was, |i: int| row_part(ell, gpairs, rows[i], b, group_start(ell, groups, m - 1)));
    }
}

/// Every group's bins are the group's own.
pub open spec fn groups_hold(ell: &DeviceEllpack, groups: Seq<FeatureGroup>, n_bins: int) -> bool {
    forall|y: int|
        0 <= y < groups.len() ==> {
            let group = #[trigger] groups[y];
            &&& group_bins(ell, &group, group.start_bin as int, group.num_bins as int)
            &&& group.start_bin + group.num_bins <= n_bins
        }
}

/// Add what the rows hold in one group to the `n_bins` bins from `slot` on, which hold `held`:
/// every cube of the group, one after the other.
fn group_cubes(
    ell: &DeviceEllpack,
    group: &FeatureGroup,
    ridx: &Vec<u32>,
    gpairs: &Vec<GradientPairInt64>,
    hist: &mut Vec<GradientPairInt64>,
    ridx_base: u32,
    n_ridx: u32,
    slot: usize,
    n_bins: usize,
    cubes: u32,
    dim: u32,
    use_shared: bool,
    native_i64: bool,
    Ghost(held): Ghost<spec_fn(int) -> PairSum>,
)
    requires
        bins_below(ell, n_bins as int),
        group_bins(ell, group, group.start_bin as int, group.num_bins as int),
        group.start_bin + group.num_bins <= n_bins,
        ridx_base + n_ridx <= ridx.len(),
        rows_ok(ell, gpairs@, ridx@.subrange(ridx_base as int, ridx_base + n_ridx)),
        n_ridx * feature_stride(ell, group) <= u32::MAX,
        0 < cubes,
        0 < dim,
        slot + n_bins <= old(hist).len(),
        forall|b: int| 0 <= b < n_bins ==> #[trigger] old(hist)[slot + b] == wrap(held(b)),
    ensures
        final(hist).len() == old(hist).len(),
        forall|b: int|
            0 <= b < n_bins ==> #[trigger] final(hist)[slot + b] == wrap(
                plus(
                    held(b),
                    group_sum(ell, gpairs@, group, ridx@.subrange(ridx_base as int, ridx_base + n_ridx), b),
                ),
            ),
        forall|i: int|
            0 <= i < old(hist).len() && !(slot <= i < slot + n_bins) ==> #[trigger] final(hist)[i] == old(hist)[i],
{
    let ghost rows = ridx@.subrange(ridx_base as int, ridx_base + n_ridx);
    let ghost before = hist@;
    let ghost size = dim * ITEMS_PER_THREAD;
    let ghost share = |b: int, x: int| cube_total(ell, gpairs@, group, rows, b, size, cubes as int, x);
    proof {
        assert(0 < size) by (nonlinear_arith)
            requires
                0 < dim,
                ITEMS_PER_THREAD == 8,
                size == dim * ITEMS_PER_THREAD,
        ;
        assert forall|b: int| 0 <= b < n_bins implies #[trigger] hist[slot + b] == wrap(
            plus(held(b), total(0, |x: int| share(b, x))),
        ) by {
            assert(plus(held(b), zero()) == held(b));
        }
    }
    let mut x: u32 = 0;
    while x < cubes
        invariant
            bins_below(ell, n_bins as int),
            group_bins(ell, group, group.start_bin as int, group.num_bins as int),
            group.start_bin + group.num_bins <= n_bins,
            ridx_base + n_ridx <= ridx.len(),
            rows == ridx@.subrange(ridx_base as int, ridx_base + n_ridx),
            rows_ok(ell, gpairs@, rows),
            n_ridx * feature_stride(ell, group) <= u32::MAX,
            0 < cubes,
            0 < dim,
            size == dim * ITEMS_PER_THREAD,
            share == (|b: int, x: int| cube_total(ell, gpairs@, group, rows, b, size, cubes as int, x)),
            slot + n_bins <= hist.len(),
            hist.len() == before.len(),
            x <= cubes,
            forall|b: int|
                0 <= b < n_bins ==> #[trigger] hist[slot + b] == wrap(
                    plus(held(b), total(x as int, |x: int| share(b, x))),
                ),
            forall|i: int|
                0 <= i < before.len() && !(slot <= i < slot + n_bins) ==> #[trigger] hist[i] == before[i],
        decreases cubes - x,
    {
        let ghost so_far = |b: int| plus(held(b), total(x as int, |x: int| share(b, x)));
        if use_shared {
            cube_shared(
                ell,
                ridx,
                gpairs,
                group,
                ridx_base,
                n_ridx,
                x,
                cubes,
                dim,
                native_i64,
                hist,
                slot,
                n_bins,
                Ghost(so_far),
            );
        } else {
            proof {
                assert forall|row: u32, f: int|
                    has_row(ell, row) && group.start_feature <= f < group.start_feature + feature_stride(
                        ell,
                        group,
                    ) implies match #[trigger] global_bin(ell, row, f) {
                    Some(g) => 0 <= g < 0 + n_bins && g <= u32::MAX,
                    None => true,
                } by {}
            }
            hist_cube(
                ell,
                ridx,
                gpairs,
                group,
                ridx_base,
                n_ridx,
                x,
                cubes,
                dim,
                native_i64,
                hist,
                slot,
                0,
                n_bins,
                Ghost(so_far),
            );
        }
        proof {
            assert forall|b: int| 0 <= b < n_bins implies #[trigger] hist[slot + b] == wrap(
                plus(held(b), total(x + 1, |x: int| share(b, x))),
            ) by {
                assert(plus(so_far(b), share(b, x as int)) == plus(held(b), total(x + 1, |x: int| share(b, x))));
            }
        }
        x += 1;
    }
    proof {
        assert forall|b: int| 0 <= b < n_bins implies #[trigger] hist[slot + b] == wrap(
            plus(held(b), group_sum(ell, gpairs@, group, rows, b)),
        ) by {
            lemma_cubes_total(ell, gpairs@, group, rows, b, size, cubes as int);
            lemma_total_same(
                cubes as int,
                |x: int| share(b, x),
                |x: int| cube_total(ell, gpairs@, group, rows, b, size, cubes as int, x),
            );
        }
    }
}

/// Build one node's histogram into the `n_bins` bins from `slot` on, which hold zero:
/// every cube of every group, one after the other.
///
/// With `use_shared` a cube gathers its group's bins in a buffer of its own and flushes
/// them at the end; without, it adds to the slot directly. `native_i64` chooses between
/// 64-bit additions and 32-bit ones with a carry.
pub fn hist_kernel(
    ell: &DeviceEllpack,
    groups: &Vec<FeatureGroup>,
    ridx: &Vec<u32>,
    gpairs: &Vec<GradientPairInt64>,
    hist: &mut Vec<GradientPairInt64>,
    ridx_base: u32,
    n_ridx: u32,
    slot: usize,
    n_bins: usize,
    cubes: u32,
    dim: u32,
    use_shared: bool,
    native_i64: bool,
)
    requires
        bins_below(ell, n_bins as int),
        groups_tile(ell, groups@),
        groups_hold(ell, groups@, n_bins as int),
        ridx_base + n_ridx <= ridx.len(),
        rows_ok(ell, gpairs@, ridx@.subrange(ridx_base as int, ridx_base + n_ridx)),
        n_ridx * ell.row_stride <= u32::MAX,
        0 < cubes,
        0 < dim,
        slot + n_bins <= old(hist).len(),
        forall|b: int|
            0 <= b < n_bins ==> #[trigger] old(hist)[slot + b] == (GradientPairInt64 { grad: 0, hess: 0 }),
    ensures
        final(hist).len() == old(hist).len(),
        final(hist)@.subrange(slot as int, slot + n_bins) == histogram(
            ell,
            gpairs@,
            ridx@.subrange(ridx_base as int, ridx_base + n_ridx),
            n_bins as int,
        ),
        forall|i: int|
            0 <= i < old(hist).len() && !(slot <= i < slot + n_bins) ==> #[trigger] final(hist)[i] == old(hist)[i],
{
    let ghost rows = ridx@.subrange(ridx_base as int, ridx_base + n_ridx);
    let ghost before = hist@;
    let mut y: usize = 0;
    while y < groups.len()
        invariant
            bins_below(ell, n_bins as int),
            groups_tile(ell, groups@),
            groups_hold(ell, groups@, n_bins as int),
            ridx_base + n_ridx <= ridx.len(),
            rows == ridx@.subrange(ridx_base as int, ridx_base + n_ridx),
            rows_ok(ell, gpairs@, rows),
            n_ridx * ell.row_stride <= u32::MAX,
            0 < cubes,
            0 < dim,
            slot + n_bins <= hist.len(),
            hist.len() == before.len(),
            y <= groups.len(),
            forall|b: int|
                0 <= b < n_bins ==> #[trigger] hist[slot + b] == wrap(
                    groups_part(ell, gpairs@, groups@, rows, b, y as int),
                ),
            forall|i: int|
                0 <= i < before.len() && !(slot <= i < slot + n_bins) ==> #[trigger] hist[i] == before[i],
        decreases groups.len() - y,
    {
        let group: FeatureGroup = groups[y];
        assert(groups[y as int] == group);
        let ghost at_group = |b: int| groups_part(ell, gpairs@, groups@, rows, b, y as int);
        proof {
            lemma_stride_fits(ell, groups@, y as int, n_ridx as int);
        }
        group_cubes(
            ell,
            &group,
            ridx,
            gpairs,
            hist,
            ridx_base,
            n_ridx,
            slot,
            n_bins,
            cubes,
            dim,
            use_shared,
            native_i64,
            Ghost(at_group),
        );
        proof {
            assert forall|b: int| 0 <= b < n_bins implies #[trigger] hist[slot + b] == wrap(
                groups_part(ell, gpairs@, groups@, rows, b, y + 1),
            ) by {
                assert(groups_part(ell, gpairs@, groups@, rows, b, y + 1) == plus(
                    at_group(b),
                    group_sum(ell, gpairs@, &group, rows, b),
                ));
            }
        }
        y += 1;
    }
    proof {
        assert forall|b: int| 0 <= b < n_bins implies hist@.subrange(slot as int, slot + n_bins)[b] == wrap(
            node_sum(ell, gpairs@, rows, b),
        ) by {
            lemma_groups_total(ell, gpairs@, groups@, rows, b, groups.len() as int);
            lemma_total_same(
                rows.len() as int,
                |i: int| row_part(ell, gpairs@, rows[i], b, group_start(ell, groups@, groups.len() as int)),
                |i: int| row_sum(ell, gpairs@, rows[i], b),
            );
            assert(hist[slot + b] == wrap(groups_part(ell, gpairs@, groups@, rows, b, groups.len() as int)));
        }
        assert(hist@.subrange(slot as int, slot + n_bins) =~= histogram(ell, gpairs@, rows, n_bins as int));
    }
}

/// A group's share of a row is no wider than the row.
proof fn lemma_stride_fits(ell: &DeviceEllpack, groups: Seq<FeatureGroup>, y: int, n: int)
    requires
        0 <= y < groups.len(),
        group_bins(ell, &groups[y], groups[y].start_bin as int, groups[y].num_bins as int),
        0 <= n,
        n * ell.row_stride <= u32::MAX,
    ensures
        n * feature_stride(ell, &groups[y]) <= u32::MAX,
{
    let s = feature_stride(ell, &groups[y]);
    assert(n * s <= n * ell.row_stride) by (nonlinear_arith)
        requires
            0 <= n,
            s <= ell.row_stride,
    ;
}

/// A cube that gathers its group's bins in a buffer of its own, then adds them to the slot.
fn cube_shared(
    ell: &DeviceEllpack,
    ridx: &Vec<u32>,
    gpairs: &Vec<GradientPairInt64>,
    group: &FeatureGroup,
    ridx_base: u32,
    n_ridx: u32,
    x: u32,
    cubes: u32,
    dim: u32,
    native_i64: bool,
    hist: &mut Vec<GradientPairInt64>,
    slot: usize,
    n_bins: usize,
    Ghost(so_far): Ghost<spec_fn(int) -> PairSum>,
)
    requires
        group_bins(ell, group, group.start_bin as int, group.num_bins as int),
        group.start_bin + group.num_bins <= n_bins,
        ridx_base + n_ridx <= ridx.len(),
        rows_ok(ell, gpairs@, ridx@.subrange(ridx_base as int, ridx_base + n_ridx)),
        n_ridx * feature_stride(ell, group) <= u32::MAX,
        x < cubes,
        0 < dim,
        slot + n_bins <= old(hist).len(),
        forall|b: int| 0 <= b < n_bins ==> #[trigger] old(hist)[slot + b] == wrap(so_far(b)),
    ensures
        final(hist).len() == old(hist).len(),
        forall|b: int|
            0 <= b < n_bins ==> #[trigger] final(hist)[slot + b] == wrap(
                plus(
                    so_far(b),
                    cube_total(
                        ell,
                        gpairs@,
                        group,
                        ridx@.subrange(ridx_base as int, ridx_base + n_ridx),
                        b,
                        dim * ITEMS_PER_THREAD,
                        cubes as int,
                        x as int,
                    ),
                ),
            ),
        forall|i: int|
            0 <= i < old(hist).len() && !(slot <= i < slot + n_bins) ==> #[trigger] final(hist)[i] == old(hist)[i],
{
    let ghost rows = ridx@.subrange(ridx_base as int, ridx_base + n_ridx);
    let ghost size = dim * ITEMS_PER_THREAD;
    let ghost before = hist@;
    let start: usize = group.start_bin as usize;
    let n: usize = group.num_bins as usize;
    let mut smem: Vec<GradientPairInt64> = vec![GradientPairInt64 { grad: 0, hess: 0 }; n];
    let ghost none = |b: int| zero();
    proof {
        assert forall|i: int| 0 <= i < n implies #[trigger] smem[0 + i] == wrap(none(group.start_bin + i)) by {}
    }
    hist_cube(
        ell,
        ridx,
        gpairs,
        group,
        ridx_base,
        n_ridx,
        x,
        cubes,
        dim,
        native_i64,
        &mut smem,
        0,
        group.start_bin,
        n,
        Ghost(none),
    );
    let ghost share = |b: int| cube_total(ell, gpairs@, group, rows, b, size, cubes as int, x as int);
    proof {
        assert forall|i: int| 0 <= i < n implies #[trigger] smem[i] == wrap(share(group.start_bin + i)) by {
            assert(smem[0 + i] == wrap(plus(none(group.start_bin + i), share(group.start_bin + i))));
            assert(plus(zero(), share(group.start_bin + i)) == share(group.start_bin + i));
        }
        assert(0 < size) by (nonlinear_arith)
            requires
                0 < dim,
                ITEMS_PER_THREAD == 8,
                size == dim * ITEMS_PER_THREAD,
        ;
    }
    let mut bin: usize = 0;
    while bin < n
        invariant
            start == group.start_bin,
            n == group.num_bins,
            start + n <= n_bins,
            slot + n_bins <= hist.len(),
            hist.len() == before.len(),
            smem.len() == n,
            bin <= n,
            forall|i: int| 0 <= i < n ==> #[trigger] smem[i] == wrap(share(group.start_bin + i)),
            forall|b: int| 0 <= b < n_bins ==> #[trigger] before[slot + b] == wrap(so_far(b)),
            forall|b: int|
                0 <= b < n_bins ==> #[trigger] hist[slot + b] == (if start <= b < start + bin {
                    wrap(plus(so_far(b), share(b)))
                } else {
                    wrap(so_far(b))
                }),
            forall|i: int|
                0 <= i < before.len() && !(slot <= i < slot + n_bins) ==> #[trigger] hist[i] == before[i],
        decreases n - bin,
    {
        let at: usize = slot + start + bin;
        let ghost was = hist@;
        let cell: GradientPairInt64 = hist[at];
        hist[at] = add_gpair(native_i64, cell, smem[bin]);
        proof {
            let b0 = start + bin;
            assert(was[slot + b0] == wrap(so_far(b0)));
            lemma_wrap_plus(so_far(b0), share(b0));
            assert forall|b: int| 0 <= b < n_bins implies #[trigger] hist[slot + b] == (if start <= b < start + bin
                + 1 {
                wrap(plus(so_far(b), share(b)))
            } else {
                wrap(so_far(b))
            }) by {
                assert(was[slot + b] == (if start <= b < start + bin {
                    wrap(plus(so_far(b), share(b)))
                } else {
                    wrap(so_far(b))
                }));
            }
        }
        bin += 1;
    }
    proof {
        assert forall|b: int| 0 <= b < n_bins implies #[trigger] hist[slot + b] == wrap(
            plus(so_far(b), share(b)),
        ) by {
            if !(start <= b < start + n) {
                lemma_cube_elsewhere(ell, gpairs@, group, rows, b, size, cubes as int, x as int);
                assert(plus(so_far(b), zero()) == so_far(b));
            }
        }
    }
}

/// A group adds nothing to a bin outside its own.
proof fn lemma_cube_elsewhere(
    ell: &DeviceEllpack,
    gpairs: Seq<GradientPairInt64>,
    group: &FeatureGroup,
    rows: Seq<u32>,
    b: int,
    size: int,
    cubes: int,
    x: int,
)
    requires
        group_bins(ell, group, group.start_bin as int, group.num_bins as int),
        rows_ok(ell, gpairs, rows),
        !(group.start_bin <= b < group.start_bin + group.num_bins),
        0 < size,
    ensures
        cube_total(ell, gpairs, group, rows, b, size, cubes, x) == zero(),
{
    let stride = feature_stride(ell, group);
    let cells = rows.len() * stride;
    let tiles = ceil_div(cells, size);
    let f = |k: int| tile_part(ell, gpairs, group, rows, b, k * size, size);
    assert forall|k: int| #[trigger] element(ell, gpairs, group, rows, b, k) == zero() by {
        if 0 <= k < cells {
            assert(stride > 0) by (nonlinear_arith)
                requires
                    0 <= k < rows.len() * stride,
                    0 <= stride,
            ;
            vstd::arithmetic::div_mod::lemma_fundamental_div_mod(k, stride);
            let q = k / stride;
            let m = k % stride;
            assert(0 <= q < rows.len()) by (nonlinear_arith)
                requires
                    0 <= k < rows.len() * stride,
                    stride > 0,
                    k == stride * q + m,
                    0 <= m < stride,
            ;
            let row = rows[q];
            assert(has_row(ell, row));
            assert(global_bin(ell, row, group.start_feature + m) != Some(b));
        }
    }
    assert forall|k: int| #[trigger] f(k) == zero() by {
        lemma_total_zero(size, |i: int| element(ell, gpairs, group, rows, b, k * size + i));
    }
    lemma_total_zero(tiles, |i: int| in_class(cubes, f, x, i));
}

/// Two words make the number whose low and high half they are, in two's complement, and no other
/// two make it.
pub proof fn lemma_joined(lo: u32, hi: u32, other_lo: u32, other_hi: u32)
    ensures
        hi < 0x8000_0000 ==> joined(lo, hi) == lo + hi * 0x1_0000_0000,
        hi >= 0x8000_0000 ==> joined(lo, hi) == lo + hi * 0x1_0000_0000 - 0x1_0000_0000_0000_0000,
        joined(lo, hi) == joined(other_lo, other_hi) <==> lo == other_lo && hi == other_hi,
{
}

} // verus!
