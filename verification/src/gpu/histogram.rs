//! Gradient histogram construction.
//!
//! A node's histogram holds, per bin, the sum of the gradient pairs of the node's rows
//! that fall into the bin. A row falls into one bin of each feature it has a value for.
//!
//! A bin is a pair of 64-bit sums. As device words it is four `u32`,
//! `[grad_lo, grad_hi, hess_lo, hess_hi]`, updated with 32-bit additions and a carry; the
//! result is the same, because two's-complement addition is associative and commutative.

use vstd::prelude::*;

use crate::gpu::ellpack::{load_bin, DeviceEllpack};
use crate::gpu::pairs::{
    exact, lemma_total_same, lemma_total_split, lemma_wrap_plus, plus, total, wrap, zero, PairSum,
};
use crate::gpu::launch::{ceil_div, div_ceil_u32, lemma_ceil_div};
use crate::gpu::row_partitioner::{has_row, lemma_entry_in_buffer};
use crate::gpu::GradientPairInt64;

verus! {

/// Items a unit takes per tile of the cooperative kernel.
pub const ITEMS_PER_THREAD: u32 = 8;

/// Units per cube of the cooperative kernel.
pub const BLOCK_THREADS: u32 = 256;

/// Default shared-memory budget per workgroup.
pub const DEFAULT_SHMEM_BYTES: usize = 49152;

/// Default upper bound on the cubes per feature group.
pub const DEFAULT_MAX_BLOCKS_PER_GROUP: u32 = 1024;

/// Rows per work item of the serial kernel.
pub const CHUNK_ROWS: u32 = 4096;

/// Floor on the per-node chunk cap of the serial kernel.
pub const MAX_CHUNKS_PER_NODE: u32 = 16;

/// Rows per block of the serial kernel's two-phase row loop on a plane-less runtime.
pub const TOUCH_ROWS: u32 = 16;

/// Bins per 64-byte cache line of a 32-bit bin matrix.
pub const LINE_BINS: u32 = 16;

/// Filler size for the shared-memory declaration of a kernel that uses none.
pub const SMEM_MIN_WORDS: usize = 4;

// ------------------------------------------------------------- the model ----

/// The histogram bin that entry `f` of row `row` falls into, `None` for a missing entry.
pub open spec fn global_bin(ell: &DeviceEllpack, row: u32, f: int) -> Option<int> {
    let v = ell.stored(row - ell.base_rowid, f);
    if !ell.dense && v == ell.null_value {
        None
    } else if ell.compressed {
        Some(v + ell.cut_ptrs[f])
    } else {
        Some(v as int)
    }
}

/// What entry `f` of row `row` adds to bin `b`.
pub open spec fn visit(ell: &DeviceEllpack, gpairs: Seq<GradientPairInt64>, row: u32, b: int, f: int) -> PairSum {
    if global_bin(ell, row, f) == Some(b) {
        exact(gpairs[row as int])
    } else {
        zero()
    }
}

/// What the first `n` entries of row `row` add to bin `b`.
pub open spec fn row_part(
    ell: &DeviceEllpack,
    gpairs: Seq<GradientPairInt64>,
    row: u32,
    b: int,
    n: int,
) -> PairSum {
    total(n, |f: int| visit(ell, gpairs, row, b, f))
}

/// What row `row` adds to bin `b`.
pub open spec fn row_sum(ell: &DeviceEllpack, gpairs: Seq<GradientPairInt64>, row: u32, b: int) -> PairSum {
    row_part(ell, gpairs, row, b, ell.row_stride as int)
}

/// What the first `n` of `rows` add to bin `b`.
pub open spec fn rows_sum(
    ell: &DeviceEllpack,
    gpairs: Seq<GradientPairInt64>,
    rows: Seq<u32>,
    b: int,
    n: int,
) -> PairSum {
    total(n, |i: int| row_sum(ell, gpairs, rows[i], b))
}

/// What the rows of a node add to bin `b`.
pub open spec fn node_sum(
    ell: &DeviceEllpack,
    gpairs: Seq<GradientPairInt64>,
    rows: Seq<u32>,
    b: int,
) -> PairSum {
    rows_sum(ell, gpairs, rows, b, rows.len() as int)
}

/// The histogram of a node: per bin, the sum over the node's rows.
pub open spec fn histogram(
    ell: &DeviceEllpack,
    gpairs: Seq<GradientPairInt64>,
    rows: Seq<u32>,
    n_bins: int,
) -> Seq<GradientPairInt64> {
    Seq::new(n_bins as nat, |b: int| wrap(node_sum(ell, gpairs, rows, b)))
}

/// Every bin the matrix holds is one of the first `n_bins`, and every entry of a
/// feature-local layout has its feature.
pub open spec fn bins_below(ell: &DeviceEllpack, n_bins: int) -> bool {
    &&& ell.wf()
    &&& ell.compressed ==> ell.row_stride <= ell.cut_ptrs.len()
    &&& forall|row: u32, f: int|
        has_row(ell, row) && 0 <= f < ell.row_stride ==> match #[trigger] global_bin(ell, row, f) {
            Some(g) => g < n_bins && g <= u32::MAX,
            None => true,
        }
}

/// The rows have a gradient and are rows of the matrix.
pub open spec fn rows_ok(ell: &DeviceEllpack, gpairs: Seq<GradientPairInt64>, rows: Seq<u32>) -> bool {
    forall|i: int| 0 <= i < rows.len() ==> has_row(ell, #[trigger] rows[i]) && rows[i] < gpairs.len()
}

/// The rows of two children together are the rows of their parent, so their histograms
/// add up to it.
pub proof fn lemma_node_sum_concat(
    ell: &DeviceEllpack,
    gpairs: Seq<GradientPairInt64>,
    a: Seq<u32>,
    c: Seq<u32>,
    b: int,
)
    ensures
        node_sum(ell, gpairs, a + c, b) == plus(node_sum(ell, gpairs, a, b), node_sum(ell, gpairs, c, b)),
{
    let rows = a + c;
    lemma_total_split(a.len() as int, c.len() as int, |i: int| row_sum(ell, gpairs, rows[i], b));
    lemma_total_same(
        a.len() as int,
        |i: int| row_sum(ell, gpairs, rows[i], b),
        |i: int| row_sum(ell, gpairs, a[i], b),
    );
    lemma_total_same(
        c.len() as int,
        |i: int| (|i: int| row_sum(ell, gpairs, rows[i], b))(a.len() + i),
        |i: int| row_sum(ell, gpairs, c[i], b),
    );
}

/// A histogram does not depend on the order of a node's rows.
pub proof fn lemma_node_sum_order(
    ell: &DeviceEllpack,
    gpairs: Seq<GradientPairInt64>,
    x: Seq<u32>,
    y: Seq<u32>,
    b: int,
)
    requires
        x.to_multiset() == y.to_multiset(),
    ensures
        node_sum(ell, gpairs, x, b) == node_sum(ell, gpairs, y, b),
    decreases x.len(),
{
    broadcast use vstd::seq_lib::group_to_multiset_ensures;

    assert(x.len() == x.to_multiset().len());
    assert(y.len() == y.to_multiset().len());
    if x.len() > 0 {
        let last = x.last();
        assert(x.to_multiset().count(last) > 0) by {
            assert(x.contains(last));
        }
        assert(y.contains(last));
        let k = choose|k: int| 0 <= k < y.len() && y[k] == last;
        let head = y.subrange(0, k);
        let tail = y.subrange(k + 1, y.len() as int);
        let rest = x.drop_last();
        let one = seq![last];
        assert(x =~= rest + one);
        assert(y =~= head + (one + tail));
        assert((head + tail).to_multiset() =~= rest.to_multiset()) by {
            vstd::seq_lib::lemma_multiset_commutative(rest, one);
            vstd::seq_lib::lemma_multiset_commutative(one, tail);
            vstd::seq_lib::lemma_multiset_commutative(head, one + tail);
            vstd::seq_lib::lemma_multiset_commutative(head, tail);
            let both = one.to_multiset();
            assert(x.to_multiset() =~= rest.to_multiset().add(both));
            assert(y.to_multiset() =~= head.to_multiset().add(both.add(tail.to_multiset())));
            assert forall|v: u32| rest.to_multiset().count(v) == (head + tail).to_multiset().count(v) by {
                assert(x.to_multiset().count(v) == rest.to_multiset().count(v) + both.count(v));
                assert(y.to_multiset().count(v) == head.to_multiset().count(v) + (both.count(v)
                    + tail.to_multiset().count(v)));
            }
        }
        lemma_node_sum_order(ell, gpairs, rest, head + tail, b);
        lemma_node_sum_concat(ell, gpairs, rest, one, b);
        lemma_node_sum_concat(ell, gpairs, head, tail, b);
        lemma_node_sum_concat(ell, gpairs, one, tail, b);
        lemma_node_sum_concat(ell, gpairs, head, one + tail, b);
    }
}

// ------------------------------------------------------- the serial kernel ----

/// One `(row, feature)` visit of the serial histogram, into the bins from `base` on.
fn hist_add(
    ell: &DeviceEllpack,
    dst: &mut Vec<GradientPairInt64>,
    base: usize,
    n_bins: usize,
    row: u32,
    fidx: u32,
    gpair: GradientPairInt64,
    Ghost(gpairs): Ghost<Seq<GradientPairInt64>>,
    Ghost(acc): Ghost<spec_fn(int) -> PairSum>,
)
    requires
        bins_below(ell, n_bins as int),
        has_row(ell, row),
        fidx < ell.row_stride,
        base + n_bins <= old(dst).len(),
        gpair == gpairs[row as int],
        forall|b: int| 0 <= b < n_bins ==> #[trigger] old(dst)[base + b] == wrap(acc(b)),
    ensures
        final(dst).len() == old(dst).len(),
        forall|b: int|
            0 <= b < n_bins ==> #[trigger] final(dst)[base + b] == wrap(
                plus(acc(b), visit(ell, gpairs, row, b, fidx as int)),
            ),
        forall|i: int|
            0 <= i < old(dst).len() && !(base <= i < base + n_bins) ==> #[trigger] final(dst)[i] == old(dst)[i],
{
    let r: u32 = row - ell.base_rowid;
    let ghost cells = ell.n_rows * ell.row_stride;
    proof {
        assert(0 <= r * ell.row_stride && r * ell.row_stride + fidx < cells) by (nonlinear_arith)
            requires
                0 <= fidx < ell.row_stride,
                0 <= r < ell.n_rows,
                cells == ell.n_rows * ell.row_stride,
        ;
        lemma_entry_in_buffer(cells, ell.bits as int, r * ell.row_stride + fidx);
    }
    let bin: u32 = load_bin(ell.gidx.as_slice(), r * ell.row_stride + fidx, ell.bits);
    let ghost was = dst@;
    if ell.dense || bin != ell.null_value {
        proof {
            assert(global_bin(ell, row, fidx as int) is Some);
        }
        let global: u32 = if ell.compressed {
            bin + ell.cut_ptrs[fidx as usize]
        } else {
            bin
        };
        assert(global_bin(ell, row, fidx as int) == Some(global as int));
        let at: usize = base + global as usize;
        let cell: GradientPairInt64 = dst[at];
        dst[at] = cell.wrapping_add(gpair);
        proof {
            assert forall|b: int| 0 <= b < n_bins implies #[trigger] dst[base + b] == wrap(
                plus(acc(b), visit(ell, gpairs, row, b, fidx as int)),
            ) by {
                assert(was[base + b] == wrap(acc(b)));
                lemma_wrap_plus(acc(b), exact(gpair));
            }
        }
    } else {
        proof {
            assert(global_bin(ell, row, fidx as int) is None);
            assert forall|b: int| 0 <= b < n_bins implies #[trigger] dst[base + b] == wrap(
                plus(acc(b), visit(ell, gpairs, row, b, fidx as int)),
            ) by {
                assert(was[base + b] == wrap(acc(b)));
                assert(plus(acc(b), zero()) == acc(b));
            }
        }
    }
}

/// What the first entries of the first `n` cache lines of a row add to bin `b`.
spec fn heads(ell: &DeviceEllpack, gpairs: Seq<GradientPairInt64>, row: u32, b: int, n: int) -> PairSum {
    total(n, |l: int| visit(ell, gpairs, row, b, LINE_BINS * l))
}

/// What entries `lo..lo + n` of a row add to bin `b`.
spec fn span(ell: &DeviceEllpack, gpairs: Seq<GradientPairInt64>, row: u32, b: int, lo: int, n: int) -> PairSum {
    total(n, |k: int| visit(ell, gpairs, row, b, lo + k))
}

/// Entries of line `l` past its first.
spec fn tail_len(ell: &DeviceEllpack, l: int) -> int {
    if LINE_BINS * l + LINE_BINS <= ell.row_stride {
        LINE_BINS - 1
    } else {
        ell.row_stride - (LINE_BINS * l + 1)
    }
}

/// What the entries past the first of the first `n` cache lines of a row add to bin `b`.
spec fn tails(ell: &DeviceEllpack, gpairs: Seq<GradientPairInt64>, row: u32, b: int, n: int) -> PairSum {
    total(n, |l: int| span(ell, gpairs, row, b, LINE_BINS * l + 1, tail_len(ell, l)))
}

/// How many cache lines a row's entries take.
spec fn lines(ell: &DeviceEllpack) -> int {
    (ell.row_stride + LINE_BINS - 1) / (LINE_BINS as int)
}

/// The first entries of a row's lines and the entries after them are the row.
proof fn lemma_lines(ell: &DeviceEllpack, gpairs: Seq<GradientPairInt64>, row: u32, b: int, n: int)
    requires
        0 <= n <= lines(ell),
    ensures
        plus(heads(ell, gpairs, row, b, n), tails(ell, gpairs, row, b, n)) == row_part(
            ell,
            gpairs,
            row,
            b,
            if LINE_BINS * n <= ell.row_stride {
                LINE_BINS * n
            } else {
                ell.row_stride as int
            },
        ),
    decreases n,
{
    if n > 0 {
        lemma_lines(ell, gpairs, row, b, n - 1);
        let lo = LINE_BINS * (n - 1);
        let m = tail_len(ell, n - 1);
        let f = |f: int| visit(ell, gpairs, row, b, f);
        lemma_total_split(lo + 1, m, f);
        lemma_total_same(m, |i: int| f(lo + 1 + i), |k: int| visit(ell, gpairs, row, b, lo + 1 + k));
        assert(row_part(ell, gpairs, row, b, lo + 1) == plus(
            row_part(ell, gpairs, row, b, lo),
            visit(ell, gpairs, row, b, lo),
        ));
    }
}

/// What the first entries of the lines of rows `a..a + n` add to bin `b`.
spec fn block_heads(
    ell: &DeviceEllpack,
    gpairs: Seq<GradientPairInt64>,
    rows: Seq<u32>,
    b: int,
    a: int,
    n: int,
) -> PairSum {
    total(n, |k: int| heads(ell, gpairs, rows[a + k], b, lines(ell)))
}

/// What the other entries of rows `a..a + n` add to bin `b`.
spec fn block_tails(
    ell: &DeviceEllpack,
    gpairs: Seq<GradientPairInt64>,
    rows: Seq<u32>,
    b: int,
    a: int,
    n: int,
) -> PairSum {
    total(n, |k: int| tails(ell, gpairs, rows[a + k], b, lines(ell)))
}

/// Both phases of a block together are the block's rows.
proof fn lemma_block(
    ell: &DeviceEllpack,
    gpairs: Seq<GradientPairInt64>,
    rows: Seq<u32>,
    b: int,
    a: int,
    n: int,
)
    requires
        0 <= a,
        0 <= n,
        a + n <= rows.len(),
    ensures
        plus(
            rows_sum(ell, gpairs, rows, b, a),
            plus(block_heads(ell, gpairs, rows, b, a, n), block_tails(ell, gpairs, rows, b, a, n)),
        ) == rows_sum(ell, gpairs, rows, b, a + n),
    decreases n,
{
    if n > 0 {
        lemma_block(ell, gpairs, rows, b, a, n - 1);
        lemma_lines(ell, gpairs, rows[a + n - 1], b, lines(ell));
    }
}

/// The serial histogram: zero the `n_bins` bins from `base` on, then accumulate every
/// `(row, feature)` of the chunk `ridx[ridx_begin..ridx_begin + n_ridx]` into them.
///
/// `touch` selects the row loop. Zero is the plain loop: a row, then all its features.
/// Otherwise rows are visited in blocks of `touch`: first the bin at the head of every
/// cache line of every row in the block, then the rest of each line, so that a block's
/// cache misses are issued together. The order of the additions cannot change a sum.
pub fn hist_atomic_free_kernel(
    ell: &DeviceEllpack,
    ridx: &Vec<u32>,
    gpairs: &Vec<GradientPairInt64>,
    dst: &mut Vec<GradientPairInt64>,
    ridx_begin: usize,
    n_ridx: usize,
    base: usize,
    n_bins: usize,
    touch: usize,
)
    requires
        bins_below(ell, n_bins as int),
        ridx_begin + n_ridx <= ridx.len(),
        rows_ok(ell, gpairs@, ridx@.subrange(ridx_begin as int, ridx_begin + n_ridx)),
        base + n_bins <= old(dst).len(),
    ensures
        final(dst).len() == old(dst).len(),
        final(dst)@.subrange(base as int, base + n_bins) == histogram(
            ell,
            gpairs@,
            ridx@.subrange(ridx_begin as int, ridx_begin + n_ridx),
            n_bins as int,
        ),
        forall|i: int|
            0 <= i < old(dst).len() && !(base <= i < base + n_bins) ==> #[trigger] final(dst)[i] == old(dst)[i],
{
    let ghost rows = ridx@.subrange(ridx_begin as int, ridx_begin + n_ridx);
    let ghost before = dst@;
    let mut w: usize = 0;
    while w < n_bins
        invariant
            base + n_bins <= dst.len(),
            dst.len() == before.len(),
            w <= n_bins,
            forall|b: int| 0 <= b < w ==> #[trigger] dst[base + b] == wrap(zero()),
            forall|i: int|
                0 <= i < before.len() && !(base <= i < base + n_bins) ==> #[trigger] dst[i] == before[i],
        decreases n_bins - w,
    {
        dst[base + w] = GradientPairInt64 { grad: 0, hess: 0 };
        w += 1;
    }
    assert forall|b: int| 0 <= b < n_bins implies #[trigger] dst[base + b] == wrap(
        rows_sum(ell, gpairs@, rows, b, 0),
    ) by {}
    let mut i: usize = 0;
    while i < n_ridx
        invariant
            bins_below(ell, n_bins as int),
            ridx_begin + n_ridx <= ridx.len(),
            rows == ridx@.subrange(ridx_begin as int, ridx_begin + n_ridx),
            rows_ok(ell, gpairs@, rows),
            base + n_bins <= dst.len(),
            dst.len() == before.len(),
            i <= n_ridx,
            forall|b: int|
                0 <= b < n_bins ==> #[trigger] dst[base + b] == wrap(rows_sum(ell, gpairs@, rows, b, i as int)),
            forall|k: int|
                0 <= k < before.len() && !(base <= k < base + n_bins) ==> #[trigger] dst[k] == before[k],
        decreases n_ridx - i,
    {
        if touch == 0 {
            let row: u32 = ridx[ridx_begin + i];
            assert(rows[i as int] == row);
            let gh: GradientPairInt64 = gpairs[row as usize];
            let mut f: u32 = 0;
            assert forall|b: int| 0 <= b < n_bins implies #[trigger] dst[base + b] == wrap(
                plus(rows_sum(ell, gpairs@, rows, b, i as int), row_part(ell, gpairs@, row, b, 0)),
            ) by {
                assert(plus(rows_sum(ell, gpairs@, rows, b, i as int), zero()) == rows_sum(
                    ell,
                    gpairs@,
                    rows,
                    b,
                    i as int,
                ));
            }
            while f < ell.row_stride
                invariant
                    bins_below(ell, n_bins as int),
                    has_row(ell, row),
                    row < gpairs.len(),
                    gh == gpairs[row as int],
                    base + n_bins <= dst.len(),
                    dst.len() == before.len(),
                    f <= ell.row_stride,
                    forall|b: int|
                        0 <= b < n_bins ==> #[trigger] dst[base + b] == wrap(
                            plus(
                                rows_sum(ell, gpairs@, rows, b, i as int),
                                row_part(ell, gpairs@, row, b, f as int),
                            ),
                        ),
                    forall|k: int|
                        0 <= k < before.len() && !(base <= k < base + n_bins) ==> #[trigger] dst[k] == before[k],
                decreases ell.row_stride - f,
            {
                let ghost acc = |b: int|
                    plus(rows_sum(ell, gpairs@, rows, b, i as int), row_part(ell, gpairs@, row, b, f as int));
                hist_add(ell, dst, base, n_bins, row, f, gh, Ghost(gpairs@), Ghost(acc));
                assert forall|b: int| 0 <= b < n_bins implies #[trigger] dst[base + b] == wrap(
                    plus(
                        rows_sum(ell, gpairs@, rows, b, i as int),
                        row_part(ell, gpairs@, row, b, f + 1),
                    ),
                ) by {
                    assert(plus(acc(b), visit(ell, gpairs@, row, b, f as int)) == plus(
                        rows_sum(ell, gpairs@, rows, b, i as int),
                        row_part(ell, gpairs@, row, b, f + 1),
                    ));
                }
                f += 1;
            }
            assert forall|b: int| 0 <= b < n_bins implies #[trigger] dst[base + b] == wrap(
                rows_sum(ell, gpairs@, rows, b, i + 1),
            ) by {
                assert(rows_sum(ell, gpairs@, rows, b, i + 1) == plus(
                    rows_sum(ell, gpairs@, rows, b, i as int),
                    row_sum(ell, gpairs@, rows[i as int], b),
                ));
            }
            i += 1;
        } else {
            let n: usize = if n_ridx - i < touch {
                n_ridx - i
            } else {
                touch
            };
            touch_block(ell, ridx, gpairs, dst, ridx_begin, n_ridx, base, n_bins, i, n);
            i += n;
        }
    }
    proof {
        assert(dst@.subrange(base as int, base + n_bins) =~= histogram(ell, gpairs@, rows, n_bins as int)) by {
            assert forall|b: int| 0 <= b < n_bins implies dst@.subrange(base as int, base + n_bins)[b] == wrap(
                node_sum(ell, gpairs@, rows, b),
            ) by {
                assert(dst[base + b] == wrap(rows_sum(ell, gpairs@, rows, b, n_ridx as int)));
            }
        }
    }
}

/// One block of the two-phase row loop: rows `i..i + n` of the chunk.
fn touch_block(
    ell: &DeviceEllpack,
    ridx: &Vec<u32>,
    gpairs: &Vec<GradientPairInt64>,
    dst: &mut Vec<GradientPairInt64>,
    ridx_begin: usize,
    n_ridx: usize,
    base: usize,
    n_bins: usize,
    i: usize,
    n: usize,
)
    requires
        bins_below(ell, n_bins as int),
        ridx_begin + n_ridx <= ridx.len(),
        rows_ok(ell, gpairs@, ridx@.subrange(ridx_begin as int, ridx_begin + n_ridx)),
        base + n_bins <= old(dst).len(),
        i + n <= n_ridx,
        forall|b: int|
            0 <= b < n_bins ==> #[trigger] old(dst)[base + b] == wrap(
                rows_sum(
                    ell,
                    gpairs@,
                    ridx@.subrange(ridx_begin as int, ridx_begin + n_ridx),
                    b,
                    i as int,
                ),
            ),
    ensures
        final(dst).len() == old(dst).len(),
        forall|b: int|
            0 <= b < n_bins ==> #[trigger] final(dst)[base + b] == wrap(
                rows_sum(ell, gpairs@, ridx@.subrange(ridx_begin as int, ridx_begin + n_ridx), b, i + n),
            ),
        forall|k: int|
            0 <= k < old(dst).len() && !(base <= k < base + n_bins) ==> #[trigger] final(dst)[k] == old(dst)[k],
{
    let ghost rows = ridx@.subrange(ridx_begin as int, ridx_begin + n_ridx);
    let ghost before = dst@;
    let ghost start = |b: int| rows_sum(ell, gpairs@, rows, b, i as int);
    let stride: u64 = ell.row_stride as u64;
    // The first bin of every cache line of every row in the block.
    let mut r: usize = 0;
    assert forall|b: int| 0 <= b < n_bins implies #[trigger] dst[base + b] == wrap(
        plus(start(b), block_heads(ell, gpairs@, rows, b, i as int, 0)),
    ) by {
        assert(plus(start(b), zero()) == start(b));
    }
    while r < n
        invariant
            bins_below(ell, n_bins as int),
            stride == ell.row_stride,
            ridx_begin + n_ridx <= ridx.len(),
            rows == ridx@.subrange(ridx_begin as int, ridx_begin + n_ridx),
            rows_ok(ell, gpairs@, rows),
            base + n_bins <= dst.len(),
            dst.len() == before.len(),
            i + n <= n_ridx,
            r <= n,
            forall|b: int|
                0 <= b < n_bins ==> #[trigger] dst[base + b] == wrap(
                    plus(start(b), block_heads(ell, gpairs@, rows, b, i as int, r as int)),
                ),
            forall|k: int|
                0 <= k < before.len() && !(base <= k < base + n_bins) ==> #[trigger] dst[k] == before[k],
        decreases n - r,
    {
        let row: u32 = ridx[ridx_begin + i + r];
        assert(rows[i + r] == row);
        let gh: GradientPairInt64 = gpairs[row as usize];
        let ghost so_far = |b: int| plus(start(b), block_heads(ell, gpairs@, rows, b, i as int, r as int));
        let ghost mut l: int = 0;
        let mut f: u64 = 0;
        assert forall|b: int| 0 <= b < n_bins implies #[trigger] dst[base + b] == wrap(
            plus(so_far(b), heads(ell, gpairs@, row, b, 0)),
        ) by {
            assert(plus(so_far(b), zero()) == so_far(b));
        }
        while f < stride
            invariant
                bins_below(ell, n_bins as int),
                stride == ell.row_stride,
                has_row(ell, row),
                row < gpairs.len(),
                gh == gpairs[row as int],
                base + n_bins <= dst.len(),
                dst.len() == before.len(),
                0 <= l,
                f == LINE_BINS * l,
                f < stride + LINE_BINS,
                forall|b: int|
                    0 <= b < n_bins ==> #[trigger] dst[base + b] == wrap(
                        plus(so_far(b), heads(ell, gpairs@, row, b, l)),
                    ),
                forall|k: int|
                    0 <= k < before.len() && !(base <= k < base + n_bins) ==> #[trigger] dst[k] == before[k],
            decreases stride + LINE_BINS - f,
        {
            let ghost acc = |b: int| plus(so_far(b), heads(ell, gpairs@, row, b, l));
            hist_add(ell, dst, base, n_bins, row, f as u32, gh, Ghost(gpairs@), Ghost(acc));
            assert forall|b: int| 0 <= b < n_bins implies #[trigger] dst[base + b] == wrap(
                plus(so_far(b), heads(ell, gpairs@, row, b, l + 1)),
            ) by {
                assert(plus(acc(b), visit(ell, gpairs@, row, b, f as int)) == plus(
                    so_far(b),
                    heads(ell, gpairs@, row, b, l + 1),
                ));
            }
            proof {
                l = l + 1;
            }
            f += LINE_BINS as u64;
        }
        assert(l == lines(ell));
        assert forall|b: int| 0 <= b < n_bins implies #[trigger] dst[base + b] == wrap(
            plus(start(b), block_heads(ell, gpairs@, rows, b, i as int, r + 1)),
        ) by {
            assert(block_heads(ell, gpairs@, rows, b, i as int, r + 1) == plus(
                block_heads(ell, gpairs@, rows, b, i as int, r as int),
                heads(ell, gpairs@, rows[i + r], b, lines(ell)),
            ));
            assert(plus(so_far(b), heads(ell, gpairs@, row, b, l)) == plus(
                start(b),
                block_heads(ell, gpairs@, rows, b, i as int, r + 1),
            ));
        }
        r += 1;
    }
    // The rest of each line.
    let ghost first = |b: int| plus(start(b), block_heads(ell, gpairs@, rows, b, i as int, n as int));
    let mut r: usize = 0;
    assert forall|b: int| 0 <= b < n_bins implies #[trigger] dst[base + b] == wrap(
        plus(first(b), block_tails(ell, gpairs@, rows, b, i as int, 0)),
    ) by {
        assert(plus(first(b), zero()) == first(b));
    }
    while r < n
        invariant
            bins_below(ell, n_bins as int),
            stride == ell.row_stride,
            ridx_begin + n_ridx <= ridx.len(),
            rows == ridx@.subrange(ridx_begin as int, ridx_begin + n_ridx),
            rows_ok(ell, gpairs@, rows),
            base + n_bins <= dst.len(),
            dst.len() == before.len(),
            i + n <= n_ridx,
            r <= n,
            forall|b: int|
                0 <= b < n_bins ==> #[trigger] dst[base + b] == wrap(
                    plus(first(b), block_tails(ell, gpairs@, rows, b, i as int, r as int)),
                ),
            forall|k: int|
                0 <= k < before.len() && !(base <= k < base + n_bins) ==> #[trigger] dst[k] == before[k],
        decreases n - r,
    {
        let row: u32 = ridx[ridx_begin + i + r];
        assert(rows[i + r] == row);
        let gh: GradientPairInt64 = gpairs[row as usize];
        let ghost so_far = |b: int| plus(first(b), block_tails(ell, gpairs@, rows, b, i as int, r as int));
        let ghost mut l: int = 0;
        let mut line: u64 = 0;
        assert forall|b: int| 0 <= b < n_bins implies #[trigger] dst[base + b] == wrap(
            plus(so_far(b), tails(ell, gpairs@, row, b, 0)),
        ) by {
            assert(plus(so_far(b), zero()) == so_far(b));
        }
        while line < stride
            invariant
                bins_below(ell, n_bins as int),
                stride == ell.row_stride,
                has_row(ell, row),
                row < gpairs.len(),
                gh == gpairs[row as int],
                base + n_bins <= dst.len(),
                dst.len() == before.len(),
                0 <= l,
                line == LINE_BINS * l,
                line < stride + LINE_BINS,
                forall|b: int|
                    0 <= b < n_bins ==> #[trigger] dst[base + b] == wrap(
                        plus(so_far(b), tails(ell, gpairs@, row, b, l)),
                    ),
                forall|k: int|
                    0 <= k < before.len() && !(base <= k < base + n_bins) ==> #[trigger] dst[k] == before[k],
            decreases stride + LINE_BINS - line,
        {
            let line_end: u64 = if stride - line < LINE_BINS as u64 {
                stride
            } else {
                line + LINE_BINS as u64
            };
            let ghost here = |b: int| plus(so_far(b), tails(ell, gpairs@, row, b, l));
            let mut f: u64 = line + 1;
            assert forall|b: int| 0 <= b < n_bins implies #[trigger] dst[base + b] == wrap(
                plus(here(b), span(ell, gpairs@, row, b, line + 1, 0)),
            ) by {
                assert(plus(here(b), zero()) == here(b));
            }
            while f < line_end
                invariant
                    bins_below(ell, n_bins as int),
                    stride == ell.row_stride,
                    has_row(ell, row),
                    row < gpairs.len(),
                    gh == gpairs[row as int],
                    base + n_bins <= dst.len(),
                    dst.len() == before.len(),
                    line + 1 <= f <= line_end <= stride,
                    forall|b: int|
                        0 <= b < n_bins ==> #[trigger] dst[base + b] == wrap(
                            plus(here(b), span(ell, gpairs@, row, b, line + 1, f - (line + 1))),
                        ),
                    forall|k: int|
                        0 <= k < before.len() && !(base <= k < base + n_bins) ==> #[trigger] dst[k] == before[k],
                decreases line_end - f,
            {
                let ghost acc = |b: int| plus(here(b), span(ell, gpairs@, row, b, line + 1, f - (line + 1)));
                hist_add(ell, dst, base, n_bins, row, f as u32, gh, Ghost(gpairs@), Ghost(acc));
                assert forall|b: int| 0 <= b < n_bins implies #[trigger] dst[base + b] == wrap(
                    plus(here(b), span(ell, gpairs@, row, b, line + 1, f - line)),
                ) by {
                    assert(plus(acc(b), visit(ell, gpairs@, row, b, f as int)) == plus(
                        here(b),
                        span(ell, gpairs@, row, b, line + 1, f - line),
                    ));
                }
                f += 1;
            }
            assert(f - (line + 1) == tail_len(ell, l));
            assert forall|b: int| 0 <= b < n_bins implies #[trigger] dst[base + b] == wrap(
                plus(so_far(b), tails(ell, gpairs@, row, b, l + 1)),
            ) by {
                assert(tails(ell, gpairs@, row, b, l + 1) == plus(
                    tails(ell, gpairs@, row, b, l),
                    span(ell, gpairs@, row, b, LINE_BINS * l + 1, tail_len(ell, l)),
                ));
                assert(plus(here(b), span(ell, gpairs@, row, b, line + 1, f - (line + 1))) == plus(
                    so_far(b),
                    tails(ell, gpairs@, row, b, l + 1),
                ));
            }
            proof {
                l = l + 1;
            }
            line += LINE_BINS as u64;
        }
        assert(l == lines(ell));
        assert forall|b: int| 0 <= b < n_bins implies #[trigger] dst[base + b] == wrap(
            plus(first(b), block_tails(ell, gpairs@, rows, b, i as int, r + 1)),
        ) by {
            assert(block_tails(ell, gpairs@, rows, b, i as int, r + 1) == plus(
                block_tails(ell, gpairs@, rows, b, i as int, r as int),
                tails(ell, gpairs@, rows[i + r], b, lines(ell)),
            ));
            assert(plus(so_far(b), tails(ell, gpairs@, row, b, l)) == plus(
                first(b),
                block_tails(ell, gpairs@, rows, b, i as int, r + 1),
            ));
        }
        r += 1;
    }
    assert forall|b: int| 0 <= b < n_bins implies #[trigger] dst[base + b] == wrap(
        rows_sum(ell, gpairs@, rows, b, i + n),
    ) by {
        lemma_block(ell, gpairs@, rows, b, i as int, n as int);
        assert(plus(first(b), block_tails(ell, gpairs@, rows, b, i as int, n as int)) == plus(
            start(b),
            plus(
                block_heads(ell, gpairs@, rows, b, i as int, n as int),
                block_tails(ell, gpairs@, rows, b, i as int, n as int),
            ),
        ));
    }
}

// ------------------------------------------------------------- work items ----

/// One node's slice of the work in a batched histogram build.
#[derive(Clone, Copy, Debug, PartialEq, Eq, Structural)]
pub struct NodeHistJob {
    /// First index of this node's rows in the shared row index.
    pub ridx_base: u32,
    pub n_ridx: u32,
    /// Bin offset of this node's slot in the destination buffer.
    pub slot: u32,
}

impl NodeHistJob {
    /// The node's rows.
    pub open spec fn rows(&self, ridx: Seq<u32>) -> Seq<u32> {
        ridx.subrange(self.ridx_base as int, self.ridx_base + self.n_ridx)
    }
}

/// The work items of one launch of the serial kernel: parallel columns, one entry per
/// item.
pub struct ItemTable {
    pub ridx_begin: Vec<u32>,
    pub n_ridx: Vec<u32>,
    /// Offset of the item's bins in its destination, in bins.
    pub dst_base: Vec<u32>,
}

/// A work item: where its rows start, how many there are, where its bins go.
pub struct Item {
    pub begin: int,
    pub n: int,
    pub base: int,
}

impl ItemTable {
    pub open spec fn wf(&self) -> bool {
        &&& self.n_ridx.len() == self.ridx_begin.len()
        &&& self.dst_base.len() == self.ridx_begin.len()
    }

    pub open spec fn item(&self, k: int) -> Item {
        Item { begin: self.ridx_begin[k] as int, n: self.n_ridx[k] as int, base: self.dst_base[k] as int }
    }

    pub fn new() -> (table: Self)
        ensures
            table.wf(),
            table.ridx_begin.len() == 0,
    {
        ItemTable { ridx_begin: Vec::new(), n_ridx: Vec::new(), dst_base: Vec::new() }
    }

    pub fn push(&mut self, ridx_begin: u32, n_ridx: u32, dst_base: u32)
        requires
            old(self).wf(),
        ensures
            final(self).wf(),
            final(self).ridx_begin@ == old(self).ridx_begin@.push(ridx_begin),
            final(self).n_ridx@ == old(self).n_ridx@.push(n_ridx),
            final(self).dst_base@ == old(self).dst_base@.push(dst_base),
    {
        self.ridx_begin.push(ridx_begin);
        self.n_ridx.push(n_ridx);
        self.dst_base.push(dst_base);
    }

    pub fn len(&self) -> (n: usize)
        ensures
            n == self.ridx_begin.len(),
    {
        self.ridx_begin.len()
    }

    pub fn is_empty(&self) -> (empty: bool)
        ensures
            empty == (self.ridx_begin.len() == 0),
    {
        self.ridx_begin.len() == 0
    }
}

/// How many row chunks a node of `n` rows is cut into.
pub open spec fn chunks_of(n: int, max_chunks: int) -> int {
    let chunks = ceil_div(n, CHUNK_ROWS as int);
    if chunks < 1 {
        1
    } else if chunks > max_chunks {
        max_chunks
    } else {
        chunks
    }
}

/// Where chunk `c` of a node of `n` rows cut into `chunks` starts.
pub open spec fn chunk_start(n: int, chunks: int, c: int) -> int {
    let at = c * ceil_div(n, chunks);
    if at < n {
        at
    } else {
        n
    }
}

/// Work items of the nodes before job `j` that are cut into several chunks.
pub open spec fn items_before(jobs: Seq<NodeHistJob>, max_chunks: int, j: int) -> int
    decreases j,
{
    if j <= 0 {
        0
    } else {
        let chunks = chunks_of(jobs[j - 1].n_ridx as int, max_chunks);
        items_before(jobs, max_chunks, j - 1) + (if chunks == 1 {
            0
        } else {
            chunks
        })
    }
}

/// Nodes of one chunk before job `j`.
pub open spec fn direct_before(jobs: Seq<NodeHistJob>, max_chunks: int, j: int) -> int
    decreases j,
{
    if j <= 0 {
        0
    } else {
        direct_before(jobs, max_chunks, j - 1) + (if chunks_of(jobs[j - 1].n_ridx as int, max_chunks) == 1 {
            1int
        } else {
            0
        })
    }
}

/// How a batch of nodes is cut into work items.
///
/// A node of one chunk accumulates straight into its slot; a node of several chunks
/// accumulates into private partial histograms, which are summed afterwards.
pub struct ChunkPlan {
    pub direct: ItemTable,
    pub chunked: ItemTable,
    /// Job `j`'s partials are `job_item_begin[j]..job_item_end[j]`; empty for a node of
    /// one chunk.
    pub job_item_begin: Vec<u32>,
    pub job_item_end: Vec<u32>,
    /// `(job index, slot in bins)` of every job with more than one chunk.
    pub chunked_jobs: Vec<(usize, u32)>,
}

impl ChunkPlan {
    /// The plan holds the work items of the first `n` jobs.
    pub open spec fn plans(&self, jobs: Seq<NodeHistJob>, n: int, n_bins: int, max_chunks: int) -> bool {
        &&& self.direct.wf()
        &&& self.chunked.wf()
        &&& self.direct.ridx_begin.len() == direct_before(jobs, max_chunks, n)
        &&& self.chunked.ridx_begin.len() == items_before(jobs, max_chunks, n)
        &&& self.job_item_begin.len() == n
        &&& self.job_item_end.len() == n
        &&& self.chunked_jobs.len() == n - direct_before(jobs, max_chunks, n)
        &&& forall|j: int| 0 <= j < n ==> #[trigger] self.plans_job(jobs, j, n_bins, max_chunks)
    }

    /// The plan holds the work items of job `j`.
    pub open spec fn plans_job(&self, jobs: Seq<NodeHistJob>, j: int, n_bins: int, max_chunks: int) -> bool {
        let job = jobs[j];
        let chunks = chunks_of(job.n_ridx as int, max_chunks);
        if chunks == 1 {
            &&& self.job_item_begin[j] == 0
            &&& self.job_item_end[j] == 0
            &&& self.direct.item(direct_before(jobs, max_chunks, j)) == (Item {
                begin: job.ridx_base as int,
                n: job.n_ridx as int,
                base: job.slot as int,
            })
        } else {
            let first = items_before(jobs, max_chunks, j);
            &&& self.job_item_begin[j] == first
            &&& self.job_item_end[j] == first + chunks
            &&& self.chunked_jobs[j - direct_before(jobs, max_chunks, j)] == (j as usize, job.slot)
            &&& forall|c: int|
                0 <= c < chunks ==> #[trigger] self.chunked.item(first + c) == chunk_item(
                    job,
                    chunks,
                    first,
                    c,
                    n_bins,
                )
        }
    }
}

/// Work item `first + c`: chunk `c` of a job cut into `chunks`.
pub open spec fn chunk_item(job: NodeHistJob, chunks: int, first: int, c: int, n_bins: int) -> Item {
    Item {
        begin: job.ridx_base + chunk_start(job.n_ridx as int, chunks, c),
        n: chunk_start(job.n_ridx as int, chunks, c + 1) - chunk_start(job.n_ridx as int, chunks, c),
        base: (first + c) * n_bins,
    }
}

pub proof fn lemma_items_before(jobs: Seq<NodeHistJob>, max_chunks: int, a: int, b: int)
    requires
        0 <= a <= b <= jobs.len(),
        max_chunks >= 1,
    ensures
        0 <= items_before(jobs, max_chunks, a) <= items_before(jobs, max_chunks, b),
        a < b && chunks_of(jobs[a].n_ridx as int, max_chunks) > 1 ==> items_before(jobs, max_chunks, a)
            + chunks_of(jobs[a].n_ridx as int, max_chunks) <= items_before(jobs, max_chunks, b),
        0 <= direct_before(jobs, max_chunks, a) <= direct_before(jobs, max_chunks, b),
        a < b && chunks_of(jobs[a].n_ridx as int, max_chunks) == 1 ==> direct_before(jobs, max_chunks, a) + 1
            <= direct_before(jobs, max_chunks, b),
        direct_before(jobs, max_chunks, b) - direct_before(jobs, max_chunks, a) <= b - a,
        a < b && chunks_of(jobs[a].n_ridx as int, max_chunks) > 1 ==> direct_before(jobs, max_chunks, b)
            - direct_before(jobs, max_chunks, a) <= b - a - 1,
        items_before(jobs, max_chunks, b) <= b * max_chunks,
    decreases b,
{
    assert(b * max_chunks == (b - 1) * max_chunks + max_chunks) by (nonlinear_arith);
    if a < b {
        lemma_items_before(jobs, max_chunks, a, b - 1);
    } else if a > 0 {
        lemma_items_before(jobs, max_chunks, a - 1, b - 1);
    } else {
        assert(0 * max_chunks == 0) by (nonlinear_arith);
    }
}

/// Chunks follow one another and end with the node's last row.
proof fn lemma_chunks(n: int, chunks: int, c: int)
    requires
        0 <= n,
        1 <= chunks,
        0 <= c < chunks,
    ensures
        0 <= chunk_start(n, chunks, c) <= chunk_start(n, chunks, c + 1) <= n,
        chunk_start(n, chunks, 0) == 0,
        chunk_start(n, chunks, chunks) == n,
        chunk_start(n, chunks, c + 1) - chunk_start(n, chunks, c) == (if n - c * ceil_div(n, chunks) < 0 {
            0
        } else if n - c * ceil_div(n, chunks) < ceil_div(n, chunks) {
            n - c * ceil_div(n, chunks)
        } else {
            ceil_div(n, chunks)
        }),
{
    lemma_ceil_div(n, chunks);
    let len = ceil_div(n, chunks);
    assert((c + 1) * len == c * len + len) by (nonlinear_arith);
    assert(0 <= c * len) by (nonlinear_arith)
        requires
            0 <= c,
            0 <= len,
    ;
    assert(0 * len == 0) by (nonlinear_arith);
    assert(chunks * len == len * chunks) by (nonlinear_arith);
}

/// Cut `jobs` into work items: chunks of [`CHUNK_ROWS`] rows, at most `max_chunks` per
/// node.
pub fn plan_chunks(jobs: &[NodeHistJob], n_bins: usize, max_chunks: u32) -> (plan: ChunkPlan)
    requires
        max_chunks >= 1,
        jobs.len() * max_chunks <= u32::MAX,
        items_before(jobs@, max_chunks as int, jobs.len() as int) * n_bins <= u32::MAX,
        forall|j: int| 0 <= j < jobs.len() ==> (#[trigger] jobs[j]).ridx_base + jobs[j].n_ridx <= u32::MAX,
    ensures
        plan.plans(jobs@, jobs.len() as int, n_bins as int, max_chunks as int),
{
    let mut plan = ChunkPlan {
        direct: ItemTable::new(),
        chunked: ItemTable::new(),
        job_item_begin: Vec::with_capacity(jobs.len()),
        job_item_end: Vec::with_capacity(jobs.len()),
        chunked_jobs: Vec::new(),
    };
    let mut j: usize = 0;
    while j < jobs.len()
        invariant
            max_chunks >= 1,
            jobs.len() * max_chunks <= u32::MAX,
            items_before(jobs@, max_chunks as int, jobs.len() as int) * n_bins <= u32::MAX,
            forall|i: int| 0 <= i < jobs.len() ==> (#[trigger] jobs[i]).ridx_base + jobs[i].n_ridx <= u32::MAX,
            j <= jobs.len(),
            plan.plans(jobs@, j as int, n_bins as int, max_chunks as int),
        decreases jobs.len() - j,
    {
        let ghost was = plan;
        let job: NodeHistJob = jobs[j];
        let whole: u32 = div_ceil_u32(job.n_ridx, CHUNK_ROWS);
        let chunks: u32 = if whole < 1 {
            1
        } else if whole > max_chunks {
            max_chunks
        } else {
            whole
        };
        proof {
            lemma_items_before(jobs@, max_chunks as int, j as int, jobs.len() as int);
            lemma_items_before(jobs@, max_chunks as int, j as int, j + 1);
            assert(jobs[j as int] == job);
        }
        let ghost first = items_before(jobs@, max_chunks as int, j as int);
        if chunks == 1 {
            plan.direct.push(job.ridx_base, job.n_ridx, job.slot);
            plan.job_item_begin.push(0);
            plan.job_item_end.push(0);
        } else {
            plan.job_item_begin.push(plan.chunked.len() as u32);
            let chunk_len: u32 = div_ceil_u32(job.n_ridx, chunks);
            let mut c: u32 = 0;
            while c < chunks
                invariant
                    job == jobs[j as int],
                    1 < chunks <= max_chunks,
                    chunks == chunks_of(job.n_ridx as int, max_chunks as int),
                    chunk_len == ceil_div(job.n_ridx as int, chunks as int),
                    job.ridx_base + job.n_ridx <= u32::MAX,
                    0 <= first,
                    first + chunks <= u32::MAX,
                    first + chunks <= items_before(jobs@, max_chunks as int, jobs.len() as int),
                    items_before(jobs@, max_chunks as int, jobs.len() as int) * n_bins <= u32::MAX,
                    c <= chunks,
                    plan.direct == was.direct,
                    plan.chunked_jobs == was.chunked_jobs,
                    plan.job_item_begin@ == was.job_item_begin@.push(first as u32),
                    plan.job_item_end == was.job_item_end,
                    plan.chunked.wf(),
                    was.chunked.wf(),
                    was.chunked.ridx_begin.len() == first,
                    plan.chunked.ridx_begin.len() == first + c,
                    forall|k: int| 0 <= k < first ==> #[trigger] plan.chunked.item(k) == was.chunked.item(k),
                    forall|k: int|
                        0 <= k < c ==> #[trigger] plan.chunked.item(first + k) == chunk_item(
                            job,
                            chunks as int,
                            first,
                            k,
                            n_bins as int,
                        ),
                decreases chunks - c,
            {
                let ghost mid = plan.chunked;
                proof {
                    lemma_chunks(job.n_ridx as int, chunks as int, c as int);
                    assert(c * chunk_len <= u32::MAX * u32::MAX) by (nonlinear_arith)
                        requires
                            0 <= c <= u32::MAX,
                            0 <= chunk_len <= u32::MAX,
                    ;
                    assert((first + c) * n_bins <= u32::MAX) by (nonlinear_arith)
                        requires
                            0 <= first + c <= items_before(jobs@, max_chunks as int, jobs.len() as int),
                            items_before(jobs@, max_chunks as int, jobs.len() as int) * n_bins <= u32::MAX,
                            0 <= n_bins,
                    ;
                }
                let at: u64 = c as u64 * chunk_len as u64;
                let begin: u32 = if at < job.n_ridx as u64 {
                    at as u32
                } else {
                    job.n_ridx
                };
                let n: u32 = if job.n_ridx - begin < chunk_len {
                    job.n_ridx - begin
                } else {
                    chunk_len
                };
                let base: usize = plan.chunked.len() * n_bins;
                plan.chunked.push(job.ridx_base + begin, n, base as u32);
                proof {
                    assert forall|k: int| 0 <= k < first implies #[trigger] plan.chunked.item(k)
                        == was.chunked.item(k) by {
                        assert(mid.item(k) == was.chunked.item(k));
                    }
                    assert forall|k: int| 0 <= k < c + 1 implies #[trigger] plan.chunked.item(first + k)
                        == chunk_item(job, chunks as int, first, k, n_bins as int) by {
                        if k < c {
                            assert(mid.item(first + k) == chunk_item(
                                job,
                                chunks as int,
                                first,
                                k,
                                n_bins as int,
                            ));
                        }
                    }
                }
                c += 1;
            }
            plan.job_item_end.push(plan.chunked.len() as u32);
            plan.chunked_jobs.push((j, job.slot));
        }
        proof {
            assert forall|i: int| 0 <= i < j + 1 implies #[trigger] plan.plans_job(
                jobs@,
                i,
                n_bins as int,
                max_chunks as int,
            ) by {
                if i < j {
                    assert(was.plans_job(jobs@, i, n_bins as int, max_chunks as int));
                    lemma_items_before(jobs@, max_chunks as int, i, j as int);
                    lemma_items_before(jobs@, max_chunks as int, 0, i);
                    let its = items_before(jobs@, max_chunks as int, i);
                    let chunks_i = chunks_of(jobs[i].n_ridx as int, max_chunks as int);
                    if chunks_i == 1 {
                        let d = direct_before(jobs@, max_chunks as int, i);
                        assert(plan.direct.item(d) == was.direct.item(d));
                        assert(plan.plans_job(jobs@, i, n_bins as int, max_chunks as int));
                    } else {
                        assert forall|k: int| 0 <= k < chunks_i implies #[trigger] plan.chunked.item(its + k)
                            == chunk_item(jobs[i], chunks_i, its, k, n_bins as int) by {
                            assert(was.chunked.item(its + k) == chunk_item(
                                jobs[i],
                                chunks_i,
                                its,
                                k,
                                n_bins as int,
                            ));
                            assert(plan.chunked.item(its + k) == was.chunked.item(its + k));
                        }
                        assert(plan.plans_job(jobs@, i, n_bins as int, max_chunks as int));
                    }
                } else if chunks == 1 {
                    assert(plan.plans_job(jobs@, i, n_bins as int, max_chunks as int));
                } else {
                    assert(plan.plans_job(jobs@, i, n_bins as int, max_chunks as int));
                }
            }
        }
        j += 1;
    }
    plan
}

/// The rows of a work item.
pub open spec fn item_rows(ridx: Seq<u32>, item: Item) -> Seq<u32> {
    ridx.subrange(item.begin, item.begin + item.n)
}

/// Two runs of `n` positions from `a` and from `b` on do not meet.
pub open spec fn apart(a: int, b: int, n: int) -> bool {
    a + n <= b || b + n <= a
}

/// Position `i` lies in none of the first `m` items' bins.
pub open spec fn outside_items(items: &ItemTable, n_bins: int, m: int, i: int) -> bool {
    forall|k: int| 0 <= k < m ==> !((#[trigger] items.item(k)).base <= i < items.item(k).base + n_bins)
}

/// One launch of the serial kernel over `items`.
fn launch_private(
    ell: &DeviceEllpack,
    ridx: &Vec<u32>,
    gpairs: &Vec<GradientPairInt64>,
    dst: &mut Vec<GradientPairInt64>,
    n_bins: usize,
    items: &ItemTable,
    touch: usize,
)
    requires
        bins_below(ell, n_bins as int),
        items.wf(),
        forall|k: int|
            0 <= k < items.ridx_begin.len() ==> {
                let item = #[trigger] items.item(k);
                &&& item.begin + item.n <= ridx.len()
                &&& rows_ok(ell, gpairs@, item_rows(ridx@, item))
                &&& item.base + n_bins <= old(dst).len()
            },
        forall|k: int, l: int|
            0 <= k < l < items.ridx_begin.len() ==> apart(
                (#[trigger] items.item(k)).base,
                (#[trigger] items.item(l)).base,
                n_bins as int,
            ),
    ensures
        final(dst).len() == old(dst).len(),
        forall|k: int|
            0 <= k < items.ridx_begin.len() ==> {
                let item = #[trigger] items.item(k);
                final(dst)@.subrange(item.base, item.base + n_bins) == histogram(
                    ell,
                    gpairs@,
                    item_rows(ridx@, item),
                    n_bins as int,
                )
            },
        forall|i: int|
            0 <= i < old(dst).len() && outside_items(items, n_bins as int, items.ridx_begin.len() as int, i)
                ==> #[trigger] final(dst)[i] == old(dst)[i],
{
    let ghost before = dst@;
    let mut k: usize = 0;
    while k < items.len()
        invariant
            bins_below(ell, n_bins as int),
            items.wf(),
            dst.len() == before.len(),
            k <= items.ridx_begin.len(),
            forall|m: int|
                0 <= m < items.ridx_begin.len() ==> {
                    let item = #[trigger] items.item(m);
                    &&& item.begin + item.n <= ridx.len()
                    &&& rows_ok(ell, gpairs@, item_rows(ridx@, item))
                    &&& item.base + n_bins <= before.len()
                },
            forall|m: int, l: int|
                0 <= m < l < items.ridx_begin.len() ==> apart(
                    (#[trigger] items.item(m)).base,
                    (#[trigger] items.item(l)).base,
                    n_bins as int,
                ),
            forall|m: int|
                0 <= m < k ==> {
                    let item = #[trigger] items.item(m);
                    dst@.subrange(item.base, item.base + n_bins) == histogram(
                        ell,
                        gpairs@,
                        item_rows(ridx@, item),
                        n_bins as int,
                    )
                },
            forall|i: int|
                0 <= i < before.len() && outside_items(items, n_bins as int, k as int, i) ==> #[trigger] dst[i]
                    == before[i],
        decreases items.ridx_begin.len() - k,
    {
        let ghost was = dst@;
        let ghost item = items.item(k as int);
        hist_atomic_free_kernel(
            ell,
            ridx,
            gpairs,
            dst,
            items.ridx_begin[k] as usize,
            items.n_ridx[k] as usize,
            items.dst_base[k] as usize,
            n_bins,
            touch,
        );
        proof {
            assert forall|m: int| 0 <= m < k + 1 implies ({
                let item = #[trigger] items.item(m);
                dst@.subrange(item.base, item.base + n_bins) == histogram(
                    ell,
                    gpairs@,
                    item_rows(ridx@, item),
                    n_bins as int,
                )
            }) by {
                if m < k {
                    let other = items.item(m);
                    assert(apart(other.base, item.base, n_bins as int));
                    assert(dst@.subrange(other.base, other.base + n_bins) =~= was.subrange(
                        other.base,
                        other.base + n_bins,
                    ));
                }
            }
            assert forall|i: int|
                0 <= i < before.len() && outside_items(items, n_bins as int, k + 1, i) implies #[trigger] dst[i]
                == before[i] by {
                assert(!(items.item(k as int).base <= i < items.item(k as int).base + n_bins));
                assert(outside_items(items, n_bins as int, k as int, i));
                assert(was[i] == before[i]);
            }
        }
        k += 1;
    }
}

/// Partial histograms a batched build left unmerged.
///
/// A node cut into several row chunks has one private partial per chunk in `partials`;
/// `job_item_begin[j]..job_item_end[j]` are job `j`'s chunks (empty for a node of one
/// chunk, whose slot is already written) and `chunked` names the jobs that have any.
pub struct PendingMerge {
    pub partials: Vec<GradientPairInt64>,
    pub job_item_begin: Vec<u32>,
    pub job_item_end: Vec<u32>,
    /// `(job index, slot in bins)` of every job with more than one chunk.
    pub chunked: Vec<(usize, u32)>,
}

/// The jobs' rows are rows of the matrix and their slots lie apart in a buffer of
/// `dst_len` bins.
pub open spec fn jobs_ok(
    ell: &DeviceEllpack,
    gpairs: Seq<GradientPairInt64>,
    ridx: Seq<u32>,
    jobs: Seq<NodeHistJob>,
    n_bins: int,
    dst_len: int,
) -> bool {
    &&& forall|j: int|
        0 <= j < jobs.len() ==> {
            let job = #[trigger] jobs[j];
            &&& job.ridx_base + job.n_ridx <= ridx.len()
            &&& job.ridx_base + job.n_ridx <= u32::MAX
            &&& rows_ok(ell, gpairs, job.rows(ridx))
            &&& job.slot + n_bins <= dst_len
        }
    &&& forall|j: int, k: int|
        0 <= j < k < jobs.len() ==> apart((#[trigger] jobs[j]).slot as int, (#[trigger] jobs[k]).slot as int, n_bins)
}

/// Position `i` lies in none of the jobs' slots.
pub open spec fn outside_slots(jobs: Seq<NodeHistJob>, n_bins: int, i: int) -> bool {
    forall|j: int| 0 <= j < jobs.len() ==> !((#[trigger] jobs[j]).slot <= i < jobs[j].slot + n_bins)
}

/// The rows of chunk `c` of a job.
pub open spec fn chunk_rows(ridx: Seq<u32>, job: NodeHistJob, chunks: int, c: int) -> Seq<u32> {
    ridx.subrange(
        job.ridx_base + chunk_start(job.n_ridx as int, chunks, c),
        job.ridx_base + chunk_start(job.n_ridx as int, chunks, c + 1),
    )
}

impl PendingMerge {
    /// The partial of work item `k`.
    pub open spec fn partial(&self, n_bins: int, k: int) -> Seq<GradientPairInt64> {
        self.partials@.subrange(k * n_bins, k * n_bins + n_bins)
    }

    /// The partials hold the chunks of every job that has more than one.
    pub open spec fn covers(
        &self,
        ell: &DeviceEllpack,
        gpairs: Seq<GradientPairInt64>,
        ridx: Seq<u32>,
        jobs: Seq<NodeHistJob>,
        n_bins: int,
        max_chunks: int,
    ) -> bool {
        &&& self.partials.len() == items_before(jobs, max_chunks, jobs.len() as int) * n_bins
        &&& self.job_item_begin.len() == jobs.len()
        &&& self.job_item_end.len() == jobs.len()
        &&& self.chunked.len() == jobs.len() - direct_before(jobs, max_chunks, jobs.len() as int)
        &&& forall|j: int|
            0 <= j < jobs.len() ==> #[trigger] self.covers_job(ell, gpairs, ridx, jobs, j, n_bins, max_chunks)
    }

    pub open spec fn covers_job(
        &self,
        ell: &DeviceEllpack,
        gpairs: Seq<GradientPairInt64>,
        ridx: Seq<u32>,
        jobs: Seq<NodeHistJob>,
        j: int,
        n_bins: int,
        max_chunks: int,
    ) -> bool {
        let job = jobs[j];
        let chunks = chunks_of(job.n_ridx as int, max_chunks);
        if chunks == 1 {
            self.job_item_begin[j] == 0 && self.job_item_end[j] == 0
        } else {
            let first = items_before(jobs, max_chunks, j);
            &&& self.job_item_begin[j] == first
            &&& self.job_item_end[j] == first + chunks
            &&& self.chunked[j - direct_before(jobs, max_chunks, j)] == (j as usize, job.slot)
            &&& forall|c: int|
                0 <= c < chunks ==> #[trigger] self.partial(n_bins, first + c) == histogram(
                    ell,
                    gpairs,
                    chunk_rows(ridx, job, chunks, c),
                    n_bins,
                )
        }
    }
}

/// The chunks of a node add up to the node.
proof fn lemma_chunk_sums(
    ell: &DeviceEllpack,
    gpairs: Seq<GradientPairInt64>,
    ridx: Seq<u32>,
    job: NodeHistJob,
    chunks: int,
    b: int,
    n: int,
)
    requires
        1 <= chunks,
        0 <= n <= chunks,
        job.ridx_base + job.n_ridx <= ridx.len(),
    ensures
        total(n, |c: int| node_sum(ell, gpairs, chunk_rows(ridx, job, chunks, c), b)) == node_sum(
            ell,
            gpairs,
            ridx.subrange(
                job.ridx_base as int,
                job.ridx_base + chunk_start(job.n_ridx as int, chunks, n),
            ),
            b,
        ),
    decreases n,
{
    lemma_chunks(job.n_ridx as int, chunks, 0);
    if n == 0 {
        assert(ridx.subrange(job.ridx_base as int, job.ridx_base as int) =~= Seq::<u32>::empty());
    } else {
        lemma_chunk_sums(ell, gpairs, ridx, job, chunks, b, n - 1);
        lemma_chunks(job.n_ridx as int, chunks, n - 1);
        let mid = job.ridx_base + chunk_start(job.n_ridx as int, chunks, n - 1);
        let end = job.ridx_base + chunk_start(job.n_ridx as int, chunks, n);
        let head = ridx.subrange(job.ridx_base as int, mid);
        assert(ridx.subrange(job.ridx_base as int, end) =~= head + ridx.subrange(mid, end));
        lemma_node_sum_concat(ell, gpairs, head, ridx.subrange(mid, end), b);
    }
}

/// Reducing the terms of a sum first changes nothing.
proof fn lemma_wrap_total(n: int, f: spec_fn(int) -> PairSum, g: spec_fn(int) -> PairSum)
    requires
        forall|k: int| 0 <= k < n ==> #[trigger] g(k) == exact(wrap(f(k))),
    ensures
        wrap(total(n, g)) == wrap(total(n, f)),
    decreases n,
{
    if n > 0 {
        lemma_wrap_total(n - 1, f, g);
        lemma_wrap_plus(total(n - 1, f), f(n - 1));
        lemma_wrap_plus(total(n - 1, g), exact(wrap(f(n - 1))));
        assert(g(n - 1) == exact(wrap(f(n - 1))));
    }
}

/// The chunks' partials of a job, summed bin by bin, are the job's histogram.
proof fn lemma_partials_sum(
    pending: &PendingMerge,
    ell: &DeviceEllpack,
    gpairs: Seq<GradientPairInt64>,
    ridx: Seq<u32>,
    jobs: Seq<NodeHistJob>,
    j: int,
    n_bins: int,
    max_chunks: int,
    b: int,
)
    requires
        pending.covers(ell, gpairs, ridx, jobs, n_bins, max_chunks),
        max_chunks >= 1,
        0 <= j < jobs.len(),
        chunks_of(jobs[j].n_ridx as int, max_chunks) > 1,
        jobs[j].ridx_base + jobs[j].n_ridx <= ridx.len(),
        0 <= b < n_bins,
    ensures
        wrap(
            partials_total(
                pending.partials@,
                n_bins,
                items_before(jobs, max_chunks, j),
                b,
                chunks_of(jobs[j].n_ridx as int, max_chunks),
            ),
        ) == wrap(node_sum(ell, gpairs, jobs[j].rows(ridx), b)),
{
    let job = jobs[j];
    let chunks = chunks_of(job.n_ridx as int, max_chunks);
    let first = items_before(jobs, max_chunks, j);
    assert(pending.covers_job(ell, gpairs, ridx, jobs, j, n_bins, max_chunks));
    let f = |c: int| node_sum(ell, gpairs, chunk_rows(ridx, job, chunks, c), b);
    let g = |c: int| exact(pending.partials[(first + c) * n_bins + b]);
    lemma_items_before(jobs, max_chunks, j, jobs.len() as int);
    assert forall|c: int| 0 <= c < chunks implies #[trigger] g(c) == exact(wrap(f(c))) by {
        let k = first + c;
        assert(pending.partial(n_bins, first + c) == histogram(
            ell,
            gpairs,
            chunk_rows(ridx, job, chunks, c),
            n_bins,
        ));
        let items = items_before(jobs, max_chunks, jobs.len() as int);
        assert(0 <= k * n_bins && k * n_bins + n_bins <= items * n_bins) by (nonlinear_arith)
            requires
                0 <= k,
                k + 1 <= items,
                0 <= n_bins,
        ;
        assert(pending.partial(n_bins, k)[b] == pending.partials[k * n_bins + b]);
    }
    lemma_wrap_total(chunks, f, g);
    lemma_chunk_sums(ell, gpairs, ridx, job, chunks, b, chunks);
    lemma_chunks(job.n_ridx as int, chunks, 0);
}

/// The sum over `n` work items from `first` on of what their partials hold in bin `b`.
pub open spec fn partials_total(
    partials: Seq<GradientPairInt64>,
    n_bins: int,
    first: int,
    b: int,
    n: int,
) -> PairSum {
    total(n, |c: int| exact(partials[(first + c) * n_bins + b]))
}

/// Add one bin across the work items `first..end`.
pub fn merge_partials_kernel(partials: &Vec<GradientPairInt64>, n_bins: usize, first: u32, end: u32, bin: usize) -> (sum: GradientPairInt64)
    requires
        first <= end,
        bin < n_bins,
        end * n_bins <= partials.len(),
    ensures
        sum == wrap(partials_total(partials@, n_bins as int, first as int, bin as int, end - first)),
{
    let mut sum = GradientPairInt64 { grad: 0, hess: 0 };
    let mut it: u32 = first;
    while it < end
        invariant
            first <= it <= end,
            bin < n_bins,
            end * n_bins <= partials.len(),
            sum == wrap(partials_total(partials@, n_bins as int, first as int, bin as int, it - first)),
        decreases end - it,
    {
        proof {
            assert(0 <= it * n_bins && it * n_bins + n_bins <= end * n_bins) by (nonlinear_arith)
                requires
                    0 <= it,
                    it + 1 <= end,
                    0 <= n_bins,
            ;
        }
        let cell: GradientPairInt64 = partials[it as usize * n_bins + bin];
        proof {
            let so_far = partials_total(partials@, n_bins as int, first as int, bin as int, it - first);
            lemma_wrap_plus(so_far, exact(cell));
            assert(partials_total(partials@, n_bins as int, first as int, bin as int, it + 1 - first) == plus(
                so_far,
                exact(cell),
            ));
        }
        sum = sum.wrapping_add(cell);
        it += 1;
    }
    sum
}

/// Accumulate a batch of node histograms on a runtime with no atomics.
///
/// Every node of one chunk has its histogram in its slot of `dst` afterwards; the nodes of
/// several chunks have their partials in the result, and their slots unwritten.
pub fn build_private_batch(
    ell: &DeviceEllpack,
    gpairs: &Vec<GradientPairInt64>,
    ridx: &Vec<u32>,
    jobs: &[NodeHistJob],
    dst: &mut Vec<GradientPairInt64>,
    n_bins: usize,
    max_chunks: u32,
    touch: usize,
) -> (pending: Option<PendingMerge>)
    requires
        bins_below(ell, n_bins as int),
        max_chunks >= 1,
        jobs.len() * max_chunks <= u32::MAX,
        items_before(jobs@, max_chunks as int, jobs.len() as int) * n_bins <= u32::MAX,
        jobs_ok(ell, gpairs@, ridx@, jobs@, n_bins as int, old(dst).len() as int),
    ensures
        final(dst).len() == old(dst).len(),
        forall|j: int|
            0 <= j < jobs.len() && chunks_of((#[trigger] jobs[j]).n_ridx as int, max_chunks as int) == 1
                ==> final(dst)@.subrange(jobs[j].slot as int, jobs[j].slot + n_bins) == histogram(
                ell,
                gpairs@,
                jobs[j].rows(ridx@),
                n_bins as int,
            ),
        forall|i: int|
            0 <= i < old(dst).len() && outside_slots(jobs@, n_bins as int, i) ==> #[trigger] final(dst)[i]
                == old(dst)[i],
        pending is None <==> items_before(jobs@, max_chunks as int, jobs.len() as int) == 0,
        pending matches Some(p) ==> p.covers(
            ell,
            gpairs@,
            ridx@,
            jobs@,
            n_bins as int,
            max_chunks as int,
        ),
{
    let plan: ChunkPlan = plan_chunks(jobs, n_bins, max_chunks);
    let ghost n = jobs.len() as int;
    let ghost mc = max_chunks as int;
    proof {
        lemma_direct_items(&plan, ell, gpairs@, ridx@, jobs@, n_bins as int, mc, dst.len() as int);
    }
    let ghost before = dst@;
    if !plan.direct.is_empty() {
        launch_private(ell, ridx, gpairs, dst, n_bins, &plan.direct, touch);
    }
    proof {
        assert forall|j: int|
            0 <= j < jobs.len() && chunks_of((#[trigger] jobs[j]).n_ridx as int, mc) == 1 implies dst@.subrange(
            jobs[j].slot as int,
            jobs[j].slot + n_bins,
        ) == histogram(ell, gpairs@, jobs[j].rows(ridx@), n_bins as int) by {
            lemma_items_before(jobs@, mc, j, n);
            assert(plan.plans_job(jobs@, j, n_bins as int, mc));
            let d = direct_before(jobs@, mc, j);
            assert(plan.direct.item(d).base == jobs[j].slot);
        }
        assert forall|i: int|
            0 <= i < before.len() && outside_slots(jobs@, n_bins as int, i) implies #[trigger] dst[i] == before[i] by {
            if plan.direct.ridx_begin.len() > 0 {
                assert(outside_items(&plan.direct, n_bins as int, plan.direct.ridx_begin.len() as int, i));
            }
        }
    }
    if plan.chunked.is_empty() {
        return None;
    }
    let words: usize = plan.chunked.len() * n_bins;
    let mut partials: Vec<GradientPairInt64> = vec![GradientPairInt64 { grad: 0, hess: 0 }; words];
    proof {
        lemma_chunked_items(&plan, ell, gpairs@, ridx@, jobs@, n_bins as int, mc, before.len() as int);
    }
    launch_private(ell, ridx, gpairs, &mut partials, n_bins, &plan.chunked, touch);
    let pending = PendingMerge {
        partials,
        job_item_begin: plan.job_item_begin,
        job_item_end: plan.job_item_end,
        chunked: plan.chunked_jobs,
    };
    proof {
        assert forall|j: int| 0 <= j < jobs.len() implies #[trigger] pending.covers_job(
            ell,
            gpairs@,
            ridx@,
            jobs@,
            j,
            n_bins as int,
            mc,
        ) by {
            lemma_items_before(jobs@, mc, j, n);
            assert(plan.plans_job(jobs@, j, n_bins as int, mc));
            let chunks = chunks_of(jobs[j].n_ridx as int, mc);
            let first = items_before(jobs@, mc, j);
            if chunks != 1 {
                assert forall|c: int| 0 <= c < chunks implies #[trigger] pending.partial(n_bins as int, first + c)
                    == histogram(ell, gpairs@, chunk_rows(ridx@, jobs[j], chunks, c), n_bins as int) by {
                    let item = plan.chunked.item(first + c);
                    assert(item == chunk_item(jobs[j], chunks, first, c, n_bins as int));
                    assert(item_rows(ridx@, item) == chunk_rows(ridx@, jobs[j], chunks, c));
                }
            }
        }
    }
    Some(pending)
}

/// Which job a work item of a one-chunk node comes from.
proof fn lemma_direct_origin(jobs: Seq<NodeHistJob>, max_chunks: int, n: int, d: int) -> (j: int)
    requires
        max_chunks >= 1,
        0 <= n <= jobs.len(),
        0 <= d < direct_before(jobs, max_chunks, n),
    ensures
        0 <= j < n,
        chunks_of(jobs[j].n_ridx as int, max_chunks) == 1,
        direct_before(jobs, max_chunks, j) == d,
    decreases n,
{
    if d == direct_before(jobs, max_chunks, n - 1) {
        n - 1
    } else {
        lemma_direct_origin(jobs, max_chunks, n - 1, d)
    }
}

/// Which job, and which of its chunks, a work item comes from.
proof fn lemma_chunk_origin(jobs: Seq<NodeHistJob>, max_chunks: int, n: int, k: int) -> (j: int)
    requires
        max_chunks >= 1,
        0 <= n <= jobs.len(),
        0 <= k < items_before(jobs, max_chunks, n),
    ensures
        0 <= j < n,
        chunks_of(jobs[j].n_ridx as int, max_chunks) > 1,
        items_before(jobs, max_chunks, j) <= k < items_before(jobs, max_chunks, j) + chunks_of(
            jobs[j].n_ridx as int,
            max_chunks,
        ),
    decreases n,
{
    if k >= items_before(jobs, max_chunks, n - 1) {
        n - 1
    } else {
        lemma_chunk_origin(jobs, max_chunks, n - 1, k)
    }
}

proof fn lemma_direct_items(
    plan: &ChunkPlan,
    ell: &DeviceEllpack,
    gpairs: Seq<GradientPairInt64>,
    ridx: Seq<u32>,
    jobs: Seq<NodeHistJob>,
    n_bins: int,
    max_chunks: int,
    dst_len: int,
)
    requires
        max_chunks >= 1,
        jobs_ok(ell, gpairs, ridx, jobs, n_bins, dst_len),
        plan.plans(jobs, jobs.len() as int, n_bins, max_chunks),
    ensures
        forall|k: int|
            0 <= k < plan.direct.ridx_begin.len() ==> {
                let item = #[trigger] plan.direct.item(k);
                &&& item.begin + item.n <= ridx.len()
                &&& rows_ok(ell, gpairs, item_rows(ridx, item))
                &&& item.base + n_bins <= dst_len
            },
        forall|k: int, l: int|
            0 <= k < l < plan.direct.ridx_begin.len() ==> apart(
                (#[trigger] plan.direct.item(k)).base,
                (#[trigger] plan.direct.item(l)).base,
                n_bins,
            ),
        forall|i: int|
            outside_slots(jobs, n_bins, i) ==> #[trigger] outside_items(
                &plan.direct,
                n_bins,
                plan.direct.ridx_begin.len() as int,
                i,
            ),
{
    let n = jobs.len() as int;
    assert forall|k: int| 0 <= k < plan.direct.ridx_begin.len() implies ({
        let item = #[trigger] plan.direct.item(k);
        &&& item.begin + item.n <= ridx.len()
        &&& rows_ok(ell, gpairs, item_rows(ridx, item))
        &&& item.base + n_bins <= dst_len
    }) by {
        let j = lemma_direct_origin(jobs, max_chunks, n, k);
        assert(plan.plans_job(jobs, j, n_bins, max_chunks));
        assert(item_rows(ridx, plan.direct.item(k)) == jobs[j].rows(ridx));
    }
    assert forall|k: int, l: int| 0 <= k < l < plan.direct.ridx_begin.len() implies apart(
        (#[trigger] plan.direct.item(k)).base,
        (#[trigger] plan.direct.item(l)).base,
        n_bins,
    ) by {
        let j = lemma_direct_origin(jobs, max_chunks, n, k);
        let i = lemma_direct_origin(jobs, max_chunks, n, l);
        assert(plan.plans_job(jobs, j, n_bins, max_chunks));
        assert(plan.plans_job(jobs, i, n_bins, max_chunks));
        if i < j {
            lemma_items_before(jobs, max_chunks, i, j);
        }
        assert(apart(jobs[j].slot as int, jobs[i].slot as int, n_bins));
    }
    assert forall|i: int| outside_slots(jobs, n_bins, i) implies #[trigger] outside_items(
        &plan.direct,
        n_bins,
        plan.direct.ridx_begin.len() as int,
        i,
    ) by {
        assert forall|k: int| 0 <= k < plan.direct.ridx_begin.len() implies !((
        #[trigger] plan.direct.item(k)).base <= i < plan.direct.item(k).base + n_bins) by {
            let j = lemma_direct_origin(jobs, max_chunks, n, k);
            assert(plan.plans_job(jobs, j, n_bins, max_chunks));
            assert(!(jobs[j].slot <= i < jobs[j].slot + n_bins));
        }
    }
}

proof fn lemma_chunked_items(
    plan: &ChunkPlan,
    ell: &DeviceEllpack,
    gpairs: Seq<GradientPairInt64>,
    ridx: Seq<u32>,
    jobs: Seq<NodeHistJob>,
    n_bins: int,
    max_chunks: int,
    dst_len: int,
)
    requires
        max_chunks >= 1,
        0 <= n_bins,
        jobs_ok(ell, gpairs, ridx, jobs, n_bins, dst_len),
        plan.plans(jobs, jobs.len() as int, n_bins, max_chunks),
    ensures
        forall|k: int|
            0 <= k < plan.chunked.ridx_begin.len() ==> {
                let item = #[trigger] plan.chunked.item(k);
                &&& item.begin + item.n <= ridx.len()
                &&& rows_ok(ell, gpairs, item_rows(ridx, item))
                &&& item.base == k * n_bins
                &&& item.base + n_bins <= plan.chunked.ridx_begin.len() * n_bins
            },
        forall|k: int, l: int|
            0 <= k < l < plan.chunked.ridx_begin.len() ==> apart(
                (#[trigger] plan.chunked.item(k)).base,
                (#[trigger] plan.chunked.item(l)).base,
                n_bins,
            ),
{
    let n = jobs.len() as int;
    let m = plan.chunked.ridx_begin.len() as int;
    assert forall|k: int| 0 <= k < m implies ({
        let item = #[trigger] plan.chunked.item(k);
        &&& item.begin + item.n <= ridx.len()
        &&& rows_ok(ell, gpairs, item_rows(ridx, item))
        &&& item.base == k * n_bins
        &&& item.base + n_bins <= m * n_bins
    }) by {
        let j = lemma_chunk_origin(jobs, max_chunks, n, k);
        assert(plan.plans_job(jobs, j, n_bins, max_chunks));
        let job = jobs[j];
        let chunks = chunks_of(job.n_ridx as int, max_chunks);
        let first = items_before(jobs, max_chunks, j);
        let c = k - first;
        assert(plan.chunked.item(first + c) == chunk_item(job, chunks, first, c, n_bins));
        lemma_chunks(job.n_ridx as int, chunks, c);
        let rows = item_rows(ridx, plan.chunked.item(k));
        assert forall|i: int| 0 <= i < rows.len() implies has_row(ell, #[trigger] rows[i]) && rows[i]
            < gpairs.len() by {
            let at = chunk_start(job.n_ridx as int, chunks, c) + i;
            assert(job.rows(ridx)[at] == rows[i]);
        }
        assert(k * n_bins + n_bins <= m * n_bins) by (nonlinear_arith)
            requires
                k + 1 <= m,
                0 <= n_bins,
        ;
    }
    assert forall|k: int, l: int| 0 <= k < l < m implies apart(
        (#[trigger] plan.chunked.item(k)).base,
        (#[trigger] plan.chunked.item(l)).base,
        n_bins,
    ) by {
        assert(k * n_bins + n_bins <= l * n_bins) by (nonlinear_arith)
            requires
                k + 1 <= l,
                0 <= n_bins,
        ;
    }
}

// ------------------------------------------------- merging and subtracting ----

impl PendingMerge {
    /// The partials of every unmerged job are there, and the slots lie apart in a buffer
    /// of `dst_len` bins.
    pub open spec fn mergeable(&self, n_bins: int, dst_len: int) -> bool {
        &&& self.job_item_end.len() == self.job_item_begin.len()
        &&& forall|e: int|
            0 <= e < self.chunked.len() ==> {
                let (j, slot) = #[trigger] self.chunked[e];
                &&& j < self.job_item_begin.len()
                &&& self.job_item_begin[j as int] <= self.job_item_end[j as int]
                &&& self.job_item_end[j as int] * n_bins <= self.partials.len()
                &&& slot + n_bins <= dst_len
            }
        &&& forall|e: int, g: int|
            0 <= e < g < self.chunked.len() ==> apart(
                (#[trigger] self.chunked[e]).1 as int,
                (#[trigger] self.chunked[g]).1 as int,
                n_bins,
            )
    }

    /// Bin `b` of job `j`: the sum over the job's partials.
    pub open spec fn merged(&self, n_bins: int, j: int, b: int) -> GradientPairInt64 {
        wrap(
            partials_total(
                self.partials@,
                n_bins,
                self.job_item_begin[j] as int,
                b,
                self.job_item_end[j] - self.job_item_begin[j],
            ),
        )
    }

    /// Position `i` lies in none of the unmerged jobs' slots.
    pub open spec fn outside(&self, n_bins: int, m: int, i: int) -> bool {
        forall|e: int|
            0 <= e < m ==> !((#[trigger] self.chunked[e]).1 <= i < self.chunked[e].1 + n_bins)
    }
}

/// Sum each unmerged node's partial histograms into its slot of `hist`.
///
/// Writes rather than adds, so the slot needs no zeroing first.
pub fn merge_pending(pending: &PendingMerge, hist: &mut Vec<GradientPairInt64>, n_bins: usize)
    requires
        pending.mergeable(n_bins as int, old(hist).len() as int),
    ensures
        final(hist).len() == old(hist).len(),
        forall|e: int, b: int|
            0 <= e < pending.chunked.len() && 0 <= b < n_bins ==> final(hist)[pending.chunked[e].1 + b]
                == #[trigger] pending.merged(n_bins as int, pending.chunked[e].0 as int, b),
        forall|i: int|
            0 <= i < old(hist).len() && pending.outside(n_bins as int, pending.chunked.len() as int, i)
                ==> #[trigger] final(hist)[i] == old(hist)[i],
{
    let ghost before = hist@;
    let mut e: usize = 0;
    while e < pending.chunked.len()
        invariant
            pending.mergeable(n_bins as int, before.len() as int),
            hist.len() == before.len(),
            e <= pending.chunked.len(),
            forall|g: int, b: int|
                0 <= g < e && 0 <= b < n_bins ==> hist[pending.chunked[g].1 + b] == #[trigger] pending.merged(
                    n_bins as int,
                    pending.chunked[g].0 as int,
                    b,
                ),
            forall|i: int|
                0 <= i < before.len() && pending.outside(n_bins as int, e as int, i) ==> #[trigger] hist[i]
                    == before[i],
        decreases pending.chunked.len() - e,
    {
        let ghost was = hist@;
        let (j, slot) = pending.chunked[e];
        assert(pending.chunked[e as int] == (j, slot));
        merge_node(pending, hist, n_bins, j, slot);
        proof {
            assert forall|g: int, b: int| 0 <= g < e + 1 && 0 <= b < n_bins implies hist[pending.chunked[g].1 + b]
                == #[trigger] pending.merged(n_bins as int, pending.chunked[g].0 as int, b) by {
                if g < e {
                    assert(apart(pending.chunked[g].1 as int, slot as int, n_bins as int));
                    assert(was[pending.chunked[g].1 + b] == pending.merged(
                        n_bins as int,
                        pending.chunked[g].0 as int,
                        b,
                    ));
                } else {
                    assert(hist[slot + b] == pending.merged(n_bins as int, j as int, b));
                }
            }
            assert forall|i: int|
                0 <= i < before.len() && pending.outside(n_bins as int, e + 1, i) implies #[trigger] hist[i]
                == before[i] by {
                assert(!(pending.chunked[e as int].1 <= i < pending.chunked[e as int].1 + n_bins));
                assert(pending.outside(n_bins as int, e as int, i));
                assert(was[i] == before[i]);
            }
        }
        e += 1;
    }
}

/// Sum one node's partials into its slot.
fn merge_node(pending: &PendingMerge, hist: &mut Vec<GradientPairInt64>, n_bins: usize, j: usize, slot: u32)
    requires
        pending.job_item_end.len() == pending.job_item_begin.len(),
        j < pending.job_item_begin.len(),
        pending.job_item_begin[j as int] <= pending.job_item_end[j as int],
        pending.job_item_end[j as int] * n_bins <= pending.partials.len(),
        slot + n_bins <= old(hist).len(),
    ensures
        final(hist).len() == old(hist).len(),
        forall|b: int|
            0 <= b < n_bins ==> #[trigger] final(hist)[slot + b] == pending.merged(n_bins as int, j as int, b),
        forall|i: int|
            0 <= i < old(hist).len() && !(slot <= i < slot + n_bins) ==> #[trigger] final(hist)[i] == old(hist)[i],
{
    let ghost before = hist@;
    let first: u32 = pending.job_item_begin[j];
    let end: u32 = pending.job_item_end[j];
    let mut bin: usize = 0;
    while bin < n_bins
        invariant
            j < pending.job_item_begin.len(),
            pending.job_item_end.len() == pending.job_item_begin.len(),
            first == pending.job_item_begin[j as int],
            end == pending.job_item_end[j as int],
            first <= end,
            end * n_bins <= pending.partials.len(),
            slot + n_bins <= hist.len(),
            hist.len() == before.len(),
            bin <= n_bins,
            forall|b: int|
                0 <= b < bin ==> #[trigger] hist[slot + b] == pending.merged(n_bins as int, j as int, b),
            forall|i: int|
                0 <= i < before.len() && !(slot <= i < slot + n_bins) ==> #[trigger] hist[i] == before[i],
        decreases n_bins - bin,
    {
        let sum: GradientPairInt64 = merge_partials_kernel(&pending.partials, n_bins, first, end, bin);
        hist[slot as usize + bin] = sum;
        bin += 1;
    }
}

/// Accumulate a batch of node histograms, each into its slot of `dst`, on a runtime with
/// no atomics.
pub fn build_into_batch(
    ell: &DeviceEllpack,
    gpairs: &Vec<GradientPairInt64>,
    ridx: &Vec<u32>,
    jobs: &[NodeHistJob],
    dst: &mut Vec<GradientPairInt64>,
    n_bins: usize,
    max_chunks: u32,
    touch: usize,
)
    requires
        bins_below(ell, n_bins as int),
        max_chunks >= 1,
        jobs.len() * max_chunks <= u32::MAX,
        items_before(jobs@, max_chunks as int, jobs.len() as int) * n_bins <= u32::MAX,
        jobs_ok(ell, gpairs@, ridx@, jobs@, n_bins as int, old(dst).len() as int),
    ensures
        final(dst).len() == old(dst).len(),
        forall|j: int|
            0 <= j < jobs.len() ==> final(dst)@.subrange(
                (#[trigger] jobs[j]).slot as int,
                jobs[j].slot + n_bins,
            ) == histogram(ell, gpairs@, jobs[j].rows(ridx@), n_bins as int),
        forall|i: int|
            0 <= i < old(dst).len() && outside_slots(jobs@, n_bins as int, i) ==> #[trigger] final(dst)[i]
                == old(dst)[i],
{
    let ghost before = dst@;
    let pending: Option<PendingMerge> = build_private_batch(
        ell,
        gpairs,
        ridx,
        jobs,
        dst,
        n_bins,
        max_chunks,
        touch,
    );
    let ghost direct = dst@;
    let ghost mc = max_chunks as int;
    let ghost n = jobs.len() as int;
    match pending {
        None => {
            proof {
                assert forall|j: int| 0 <= j < jobs.len() implies dst@.subrange(
                    (#[trigger] jobs[j]).slot as int,
                    jobs[j].slot + n_bins,
                ) == histogram(ell, gpairs@, jobs[j].rows(ridx@), n_bins as int) by {
                    lemma_items_before(jobs@, mc, j, n);
                    lemma_ceil_div(jobs[j].n_ridx as int, CHUNK_ROWS as int);
                }
            }
        },
        Some(p) => {
            proof {
                lemma_covered_mergeable(&p, ell, gpairs@, ridx@, jobs@, n_bins as int, mc, dst.len() as int);
            }
            merge_pending(&p, dst, n_bins);
            proof {
                assert forall|j: int| 0 <= j < jobs.len() implies dst@.subrange(
                    (#[trigger] jobs[j]).slot as int,
                    jobs[j].slot + n_bins,
                ) == histogram(ell, gpairs@, jobs[j].rows(ridx@), n_bins as int) by {
                    let slot = jobs[j].slot as int;
                    if chunks_of(jobs[j].n_ridx as int, mc) == 1 {
                        assert forall|i: int| slot <= i < slot + n_bins implies dst[i] == direct[i] by {
                            lemma_unmerged_apart(&p, ell, gpairs@, ridx@, jobs@, n_bins as int, mc, dst.len() as int, j, i);
                        }
                        assert(dst@.subrange(slot, slot + n_bins) =~= direct.subrange(slot, slot + n_bins));
                    } else {
                        assert(p.covers_job(ell, gpairs@, ridx@, jobs@, j, n_bins as int, mc));
                        lemma_items_before(jobs@, mc, j, n);
                        lemma_items_before(jobs@, mc, 0, j);
                        lemma_ceil_div(jobs[j].n_ridx as int, CHUNK_ROWS as int);
                        let e = j - direct_before(jobs@, mc, j);
                        assert(p.chunked[e] == (j as usize, jobs[j].slot));
                        assert forall|b: int| 0 <= b < n_bins implies dst@.subrange(slot, slot + n_bins)[b] == wrap(
                            node_sum(ell, gpairs@, jobs[j].rows(ridx@), b),
                        ) by {
                            lemma_partials_sum(&p, ell, gpairs@, ridx@, jobs@, j, n_bins as int, mc, b);
                            assert(dst[p.chunked[e].1 + b] == p.merged(n_bins as int, p.chunked[e].0 as int, b));
                        }
                        assert(dst@.subrange(slot, slot + n_bins) =~= histogram(
                            ell,
                            gpairs@,
                            jobs[j].rows(ridx@),
                            n_bins as int,
                        ));
                    }
                }
                assert forall|i: int|
                    0 <= i < before.len() && outside_slots(jobs@, n_bins as int, i) implies #[trigger] dst[i]
                    == before[i] by {
                    assert forall|e: int| 0 <= e < p.chunked.len() implies !((#[trigger] p.chunked[e]).1 <= i
                        < p.chunked[e].1 + n_bins) by {
                        let j = lemma_merge_origin(&p, ell, gpairs@, ridx@, jobs@, n_bins as int, mc, n, e);
                        assert(!(jobs[j].slot <= i < jobs[j].slot + n_bins));
                    }
                    assert(p.outside(n_bins as int, p.chunked.len() as int, i));
                    assert(direct[i] == before[i]);
                }
            }
        },
    }
}

/// Which job an entry of the unmerged ones names.
proof fn lemma_merge_origin(
    p: &PendingMerge,
    ell: &DeviceEllpack,
    gpairs: Seq<GradientPairInt64>,
    ridx: Seq<u32>,
    jobs: Seq<NodeHistJob>,
    n_bins: int,
    max_chunks: int,
    n: int,
    e: int,
) -> (j: int)
    requires
        max_chunks >= 1,
        p.covers(ell, gpairs, ridx, jobs, n_bins, max_chunks),
        jobs.len() <= usize::MAX,
        0 <= n <= jobs.len(),
        0 <= e < n - direct_before(jobs, max_chunks, n),
    ensures
        0 <= j < n,
        chunks_of(jobs[j].n_ridx as int, max_chunks) != 1,
        e == j - direct_before(jobs, max_chunks, j),
        p.chunked[e] == (j as usize, jobs[j].slot),
        p.chunked[e].0 == j,
    decreases n,
{
    if e == n - 1 - direct_before(jobs, max_chunks, n - 1) && chunks_of(jobs[n - 1].n_ridx as int, max_chunks)
        != 1 {
        assert(p.covers_job(ell, gpairs, ridx, jobs, n - 1, n_bins, max_chunks));
        n - 1
    } else {
        lemma_merge_origin(p, ell, gpairs, ridx, jobs, n_bins, max_chunks, n - 1, e)
    }
}

/// The partials a batch leaves can be merged.
proof fn lemma_covered_mergeable(
    p: &PendingMerge,
    ell: &DeviceEllpack,
    gpairs: Seq<GradientPairInt64>,
    ridx: Seq<u32>,
    jobs: Seq<NodeHistJob>,
    n_bins: int,
    max_chunks: int,
    dst_len: int,
)
    requires
        max_chunks >= 1,
        0 <= n_bins,
        jobs.len() <= usize::MAX,
        p.covers(ell, gpairs, ridx, jobs, n_bins, max_chunks),
        jobs_ok(ell, gpairs, ridx, jobs, n_bins, dst_len),
    ensures
        p.mergeable(n_bins, dst_len),
{
    let n = jobs.len() as int;
    lemma_items_before(jobs, max_chunks, 0, n);
    assert forall|e: int| 0 <= e < p.chunked.len() implies ({
        let (j, slot) = #[trigger] p.chunked[e];
        &&& j < p.job_item_begin.len()
        &&& p.job_item_begin[j as int] <= p.job_item_end[j as int]
        &&& p.job_item_end[j as int] * n_bins <= p.partials.len()
        &&& slot + n_bins <= dst_len
    }) by {
        let j = lemma_merge_origin(p, ell, gpairs, ridx, jobs, n_bins, max_chunks, n, e);
        assert(p.covers_job(ell, gpairs, ridx, jobs, j, n_bins, max_chunks));
        lemma_items_before(jobs, max_chunks, j, n);
        lemma_ceil_div(jobs[j].n_ridx as int, CHUNK_ROWS as int);
        let end = p.job_item_end[j] as int;
        let items = items_before(jobs, max_chunks, n);
        assert(end * n_bins <= items * n_bins) by (nonlinear_arith)
            requires
                end <= items,
                0 <= n_bins,
        ;
    }
    assert forall|e: int, g: int| 0 <= e < g < p.chunked.len() implies apart(
        (#[trigger] p.chunked[e]).1 as int,
        (#[trigger] p.chunked[g]).1 as int,
        n_bins,
    ) by {
        let j = lemma_merge_origin(p, ell, gpairs, ridx, jobs, n_bins, max_chunks, n, e);
        let k = lemma_merge_origin(p, ell, gpairs, ridx, jobs, n_bins, max_chunks, n, g);
        if k < j {
            lemma_items_before(jobs, max_chunks, k, j);
        }
        assert(apart(jobs[j].slot as int, jobs[k].slot as int, n_bins));
    }
}

/// Merging leaves the slots of one-chunk nodes alone.
proof fn lemma_unmerged_apart(
    p: &PendingMerge,
    ell: &DeviceEllpack,
    gpairs: Seq<GradientPairInt64>,
    ridx: Seq<u32>,
    jobs: Seq<NodeHistJob>,
    n_bins: int,
    max_chunks: int,
    dst_len: int,
    j: int,
    i: int,
)
    requires
        max_chunks >= 1,
        jobs.len() <= usize::MAX,
        p.covers(ell, gpairs, ridx, jobs, n_bins, max_chunks),
        jobs_ok(ell, gpairs, ridx, jobs, n_bins, dst_len),
        0 <= j < jobs.len(),
        chunks_of(jobs[j].n_ridx as int, max_chunks) == 1,
        jobs[j].slot <= i < jobs[j].slot + n_bins,
    ensures
        p.outside(n_bins, p.chunked.len() as int, i),
{
    assert forall|e: int| 0 <= e < p.chunked.len() implies !((#[trigger] p.chunked[e]).1 <= i < p.chunked[e].1
        + n_bins) by {
        let k = lemma_merge_origin(p, ell, gpairs, ridx, jobs, n_bins, max_chunks, jobs.len() as int, e);
        if k < j {
            assert(apart(jobs[k].slot as int, jobs[j].slot as int, n_bins));
        } else {
            assert(apart(jobs[j].slot as int, jobs[k].slot as int, n_bins));
        }
    }
}

/// A node without rows has an empty histogram, and one row more adds what the row adds to each bin.
pub proof fn lemma_histogram_grows(
    ell: &DeviceEllpack,
    gpairs: Seq<GradientPairInt64>,
    rows: Seq<u32>,
    row: u32,
    n_bins: int,
    b: int,
)
    requires
        0 <= b < n_bins,
    ensures
        histogram(ell, gpairs, Seq::empty(), n_bins)[b].grad == 0,
        histogram(ell, gpairs, Seq::empty(), n_bins)[b].hess == 0,
        histogram(ell, gpairs, rows.push(row), n_bins)[b] == wrap(
            plus(exact(histogram(ell, gpairs, rows, n_bins)[b]), row_sum(ell, gpairs, row, b)),
        ),
{
    let more = rows.push(row);
    let n = rows.len() as int;
    lemma_total_same(n, |i: int| row_sum(ell, gpairs, rows[i], b), |i: int| row_sum(ell, gpairs, more[i], b));
    assert(node_sum(ell, gpairs, more, b) == plus(node_sum(ell, gpairs, rows, b), row_sum(ell, gpairs, row, b)));
    crate::gpu::pairs::lemma_wrap_plus(node_sum(ell, gpairs, rows, b), row_sum(ell, gpairs, row, b));
    let none: Seq<u32> = Seq::empty();
    assert(node_sum(ell, gpairs, none, b) == zero());
    assert(histogram(ell, gpairs, none, n_bins)[b] == wrap(zero()));
}

/// A row adds its gradient pair to a bin that one of its entries stands in, once, and nothing to a
/// bin that none does.
pub proof fn lemma_row_adds(ell: &DeviceEllpack, gpairs: Seq<GradientPairInt64>, row: u32, b: int, f: int)
    ensures
        (forall|g: int| 0 <= g < ell.row_stride ==> #[trigger] global_bin(ell, row, g) != Some(b)) ==> row_sum(
            ell,
            gpairs,
            row,
            b,
        ).grad == 0 && row_sum(ell, gpairs, row, b).hess == 0,
        0 <= f < ell.row_stride && global_bin(ell, row, f) == Some(b) && (forall|g: int|
            0 <= g < ell.row_stride && g != f ==> #[trigger] global_bin(ell, row, g) != Some(b)) ==> row_sum(
            ell,
            gpairs,
            row,
            b,
        ).grad == gpairs[row as int].grad && row_sum(ell, gpairs, row, b).hess == gpairs[row as int].hess,
{
    let n = ell.row_stride as int;
    if forall|g: int| 0 <= g < n ==> #[trigger] global_bin(ell, row, g) != Some(b) {
        lemma_row_part(ell, gpairs, row, b, -1, n);
    }
    if 0 <= f < n && global_bin(ell, row, f) == Some(b) && (forall|g: int|
        0 <= g < n && g != f ==> #[trigger] global_bin(ell, row, g) != Some(b)) {
        lemma_row_part(ell, gpairs, row, b, f, n);
    }
}

proof fn lemma_row_part(ell: &DeviceEllpack, gpairs: Seq<GradientPairInt64>, row: u32, b: int, f: int, n: int)
    requires
        0 <= n,
        forall|g: int| 0 <= g < n && g != f ==> #[trigger] global_bin(ell, row, g) != Some(b),
        0 <= f < n ==> global_bin(ell, row, f) == Some(b),
    ensures
        row_part(ell, gpairs, row, b, n) == (if 0 <= f < n {
            exact(gpairs[row as int])
        } else {
            zero()
        }),
    decreases n,
{
    if n > 0 {
        lemma_row_part(ell, gpairs, row, b, f, n - 1);
        let term = |g: int| visit(ell, gpairs, row, b, g);
        assert(row_part(ell, gpairs, row, b, n) == plus(row_part(ell, gpairs, row, b, n - 1), term(n - 1)));
    }
}

/// A bin counted from the first of all features is that of the feature, counted on from the
/// feature's first.
pub proof fn lemma_global_bin(ell: &DeviceEllpack, row: u32, f: int)
    ensures
        ell.compressed ==> (global_bin(ell, row, f) is None <==> crate::gpu::row_partitioner::local_bin(ell, f, row)
            is None),
        ell.compressed && global_bin(ell, row, f) is Some ==> global_bin(ell, row, f)->0 == ell.cut_ptrs[f]
            + crate::gpu::row_partitioner::local_bin(ell, f, row)->0,
        !ell.compressed && (ell.dense || ell.stored(row - ell.base_rowid, f) != ell.null_value) ==> global_bin(
            ell,
            row,
            f,
        ) == Some(ell.stored(row - ell.base_rowid, f) as int),
{
}

/// The rows of a job are those from its first on, as many as it has.
pub proof fn lemma_job_rows(job: NodeHistJob, ridx: Seq<u32>, i: int)
    requires
        job.ridx_base + job.n_ridx <= ridx.len(),
        0 <= i < job.n_ridx,
    ensures
        job.rows(ridx).len() == job.n_ridx,
        job.rows(ridx)[i] == ridx[job.ridx_base + i],
{
}

/// A job is cut into one chunk at least and no more than the most; the chunks begin with its first
/// row and end with its last.
pub proof fn lemma_chunks_span(n: int, max_chunks: int, c: int)
    requires
        0 <= n,
        1 <= max_chunks,
        0 <= c,
    ensures
        1 <= chunks_of(n, max_chunks) <= max_chunks,
        n <= CHUNK_ROWS ==> chunks_of(n, max_chunks) == 1,
        chunk_start(n, chunks_of(n, max_chunks), 0) == 0,
        chunk_start(n, chunks_of(n, max_chunks), chunks_of(n, max_chunks)) == n,
        chunk_start(n, chunks_of(n, max_chunks), c) <= chunk_start(n, chunks_of(n, max_chunks), c + 1) <= n,
{
    let chunks = chunks_of(n, max_chunks);
    let step = ceil_div(n, chunks);
    crate::gpu::launch::lemma_ceil_div(n, CHUNK_ROWS as int);
    crate::gpu::launch::lemma_ceil_div(n, chunks);
    assert(0 * step == 0) by (nonlinear_arith);
    assert(c * step <= (c + 1) * step) by (nonlinear_arith)
        requires
            0 <= step,
    ;
    assert(chunks * step == step * chunks) by (nonlinear_arith);
    if n <= CHUNK_ROWS {
        let k = ceil_div(n, CHUNK_ROWS as int);
        if k > 1 {
            assert(1 * CHUNK_ROWS < n);
        }
    }
}

} // verus!
