//! The split search and the row partitioner name the same split.
//!
//! The search works on sums of histogram bins, the partitioner on rows. That a node's left
//! child holds exactly the rows whose gradients make up its sum is what ties the two
//! together, and is proved here, per target.

use vstd::prelude::*;

use crate::bits::bit;
use crate::data::cuts::{category_spec, key_spec, HistogramCuts};
use crate::data::radix::{comes_before, listed, sorts};
use crate::float_bits::{is_nan_spec, lt_spec, same_spec};
use crate::gpu::categorical::{
    bins_sum, candidate_of, goes_right, head_sum, side_limit, tail_sum, CatCandidate, CatPlan, CatTrial, Score,
};
use crate::gpu::ellpack::DeviceEllpack;
use crate::gpu::evaluate_splits::{
    backward_trials, forward_trials, lemma_suffix_from_prefix, pair_index, run_sum, wins_features, wins_trials,
    DeviceSplitCandidate, SplitEvaluatorGpu, Trial, DEFAULT_LEFT_BIT,
};
use crate::gpu::evaluate_multi::{child_left, summed_left, target_left};
use crate::gpu::evaluation::{input_of, Found};
use crate::gpu::expand::ExpandEntry;
use crate::gpu::frontier::{child_seg, parent_rows, right_built, target_bins, unit_at};
use crate::gpu::grower::{bins_local, GpuHistGrower};
use crate::gpu::growth::{
    all_rows, by_nid, column_sum, entry_segs, is_child, leaf_segs, lemma_by_nid, ChildIds, TreeGrowth,
};
use crate::gpu::histogram::{global_bin, node_sum, row_sum, visit};
use crate::gpu::pairs::{
    exact, lemma_total_plus, lemma_total_same, lemma_total_swap, lemma_total_zero, lemma_wrap_exact, lemma_wrap_plus,
    minus, plus, total, wrap, zero, PairSum,
};
use crate::gpu::row_partitioner::{has_row, local_bin, unowned, SegmentSplit};
use crate::gpu::segments::{lemma_owners_at_least, lies_in, owners};
use crate::gpu::GradientPairInt64;
use crate::seqs::{lemma_filter_counts, lemma_filter_empty, lemma_filter_push};
use crate::tree::cat::holds_category;
use crate::tree::param::TrainParam;

verus! {

/// The sum of the gradients of some rows.
pub open spec fn rows_total(gpairs: Seq<GradientPairInt64>, rows: Seq<u32>) -> PairSum {
    total(rows.len() as int, |i: int| exact(gpairs[rows[i] as int]))
}

/// The sum of the gradients of the rows that `p` picks.
pub open spec fn picked_total(gpairs: Seq<GradientPairInt64>, rows: Seq<u32>, p: spec_fn(u32) -> bool) -> PairSum {
    total(rows.len() as int, |i: int| picked(gpairs, rows[i], p))
}

/// What a row adds where `p` picks it.
pub open spec fn picked(gpairs: Seq<GradientPairInt64>, row: u32, p: spec_fn(u32) -> bool) -> PairSum {
    if p(row) {
        exact(gpairs[row as int])
    } else {
        zero()
    }
}

/// Picking rows and adding them up is adding up the rows that were picked.
proof fn lemma_picked(gpairs: Seq<GradientPairInt64>, rows: Seq<u32>, p: spec_fn(u32) -> bool)
    ensures
        picked_total(gpairs, rows, p) == rows_total(gpairs, rows.filter(p)),
    decreases rows.len(),
{
    if rows.len() == 0 {
        assert(rows =~= Seq::empty());
        lemma_filter_empty(p);
    } else {
        let rest = rows.drop_last();
        let last = rows.last();
        lemma_picked(gpairs, rest, p);
        assert(rest.push(last) =~= rows);
        lemma_filter_push(rest, last, p);
        lemma_total_same(
            rest.len() as int,
            |i: int| picked(gpairs, rows[i], p),
            |i: int| picked(gpairs, rest[i], p),
        );
        if p(last) {
            let left = rest.filter(p);
            lemma_total_same(
                left.len() as int,
                |i: int| exact(gpairs[left.push(last)[i] as int]),
                |i: int| exact(gpairs[left[i] as int]),
            );
        }
    }
}

/// The rows that `p` picks and those it does not make up all of them.
proof fn lemma_picked_all(gpairs: Seq<GradientPairInt64>, rows: Seq<u32>, p: spec_fn(u32) -> bool, q: spec_fn(u32) -> bool)
    requires
        forall|row: u32| #[trigger] q(row) == !p(row),
    ensures
        plus(picked_total(gpairs, rows, p), picked_total(gpairs, rows, q)) == rows_total(gpairs, rows),
{
    let a = |i: int| picked(gpairs, rows[i], p);
    let b = |i: int| picked(gpairs, rows[i], q);
    lemma_total_plus(rows.len() as int, a, b);
    assert forall|i: int| 0 <= i < rows.len() implies #[trigger] plus(a(i), b(i)) == exact(gpairs[rows[i] as int]) by {
        assert(q(rows[i]) == !p(rows[i]));
    }
    lemma_total_same(
        rows.len() as int,
        |i: int| plus(a(i), b(i)),
        |i: int| exact(gpairs[rows[i] as int]),
    );
}

/// A sum with one term.
proof fn lemma_total_single(n: int, f: spec_fn(int) -> PairSum, k: int)
    requires
        0 <= k < n,
        forall|i: int| 0 <= i < n && i != k ==> #[trigger] f(i) == zero(),
    ensures
        total(n, f) == f(k),
    decreases n,
{
    if k == n - 1 {
        lemma_total_zero(n - 1, f);
    } else {
        lemma_total_single(n - 1, f, k);
        assert(f(n - 1) == zero());
    }
}

/// Adding a term that was reduced to a sum that was.
proof fn lemma_wrap_step(a: PairSum, b: PairSum, x: PairSum)
    requires
        wrap(a) == wrap(b),
    ensures
        wrap(plus(a, exact(wrap(x)))) == wrap(plus(b, x)),
{
    lemma_wrap_plus(x, a);
    lemma_wrap_plus(a, x);
    lemma_wrap_plus(b, x);
    assert(plus(exact(wrap(x)), a) == plus(a, exact(wrap(x))));
    assert(plus(x, a) == plus(a, x));
}

/// Reducing the terms of a sum first changes nothing.
proof fn lemma_wrap_total(n: int, f: spec_fn(int) -> PairSum, g: spec_fn(int) -> PairSum)
    requires
        forall|i: int| 0 <= i < n ==> #[trigger] g(i) == exact(wrap(f(i))),
    ensures
        wrap(total(n, g)) == wrap(total(n, f)),
    decreases n,
{
    if n > 0 {
        lemma_wrap_total(n - 1, f, g);
        assert(g(n - 1) == exact(wrap(f(n - 1))));
        lemma_wrap_step(total(n - 1, g), total(n - 1, f), f(n - 1));
    }
}

/// A matrix whose entries stand in their features' own bins.
pub open spec fn binned(ell: &DeviceEllpack) -> bool {
    &&& ell.compressed
    &&& ell.row_stride + 1 == ell.cut_ptrs.len()
    &&& bins_local(ell)
    &&& forall|a: int, b: int| 0 <= a <= b < ell.cut_ptrs.len() ==> #[trigger] ell.cut_ptrs[a] <= #[trigger] ell.cut_ptrs[b]
}

/// All rows are rows of the matrix.
pub open spec fn rows_in(ell: &DeviceEllpack, rows: Seq<u32>) -> bool {
    forall|i: int| 0 <= i < rows.len() ==> has_row(ell, #[trigger] rows[i])
}

/// What a row adds to a bin of feature `f`: its gradient, if that is the bin of its entry
/// for the feature.
proof fn lemma_row_bin(ell: &DeviceEllpack, gpairs: Seq<GradientPairInt64>, row: u32, f: int, j: int)
    requires
        binned(ell),
        has_row(ell, row),
        0 <= f < ell.row_stride,
        0 <= j < ell.cut_ptrs[f + 1] - ell.cut_ptrs[f],
    ensures
        row_sum(ell, gpairs, row, ell.cut_ptrs[f] + j) == (if local_bin(ell, f, row) == Some(j) {
            exact(gpairs[row as int])
        } else {
            zero()
        }),
{
    let b = ell.cut_ptrs[f] + j;
    let term = |g: int| visit(ell, gpairs, row, b, g);
    assert forall|g: int| 0 <= g < ell.row_stride && g != f implies #[trigger] term(g) == zero() by {
        match local_bin(ell, g, row) {
            Some(v) => {
                assert(0 <= v < ell.cut_ptrs[g + 1] - ell.cut_ptrs[g]);
                assert(global_bin(ell, row, g) == Some(v + ell.cut_ptrs[g]));
                if g < f {
                    assert(ell.cut_ptrs[g + 1] <= ell.cut_ptrs[f]);
                } else {
                    assert(ell.cut_ptrs[f + 1] <= ell.cut_ptrs[g]);
                }
            },
            None => {
                assert(global_bin(ell, row, g) is None);
            },
        }
    }
    lemma_total_single(ell.row_stride as int, term, f);
    match local_bin(ell, f, row) {
        Some(v) => assert(global_bin(ell, row, f) == Some(v + ell.cut_ptrs[f])),
        None => assert(global_bin(ell, row, f) is None),
    }
}

/// The row has a value for the feature, in its bins `from..to`.
pub open spec fn in_bins(ell: &DeviceEllpack, f: int, from: int, to: int, row: u32) -> bool {
    match local_bin(ell, f, row) {
        Some(b) => from <= b < to,
        None => false,
    }
}

/// `hist` holds, from `start` on, the bins of feature `f` of a node of these rows.
pub open spec fn holds_bins(
    ell: &DeviceEllpack,
    gpairs: Seq<GradientPairInt64>,
    rows: Seq<u32>,
    hist: Seq<GradientPairInt64>,
    start: int,
    f: int,
) -> bool {
    forall|j: int|
        0 <= j < ell.cut_ptrs[f + 1] - ell.cut_ptrs[f] ==> #[trigger] hist[start + j] == wrap(
            node_sum(ell, gpairs, rows, ell.cut_ptrs[f] + j),
        )
}

/// The sum of a feature's first `m` bins is the sum of the rows that stand in them.
proof fn lemma_run_is_rows(
    ell: &DeviceEllpack,
    gpairs: Seq<GradientPairInt64>,
    rows: Seq<u32>,
    hist: Seq<GradientPairInt64>,
    start: int,
    f: int,
    m: int,
)
    requires
        binned(ell),
        rows_in(ell, rows),
        0 <= f < ell.row_stride,
        0 <= m <= ell.cut_ptrs[f + 1] - ell.cut_ptrs[f],
        holds_bins(ell, gpairs, rows, hist, start, f),
    ensures
        wrap(run_sum(hist, start, m)) == wrap(picked_total(gpairs, rows, |row: u32| in_bins(ell, f, 0, m, row))),
{
    let n = rows.len() as int;
    let below = |row: u32| in_bins(ell, f, 0, m, row);
    let cell = |i: int, j: int|
        if local_bin(ell, f, rows[i]) == Some(j) {
            exact(gpairs[rows[i] as int])
        } else {
            zero()
        };
    let bin = |j: int| total(n, |i: int| cell(i, j));
    assert forall|j: int| 0 <= j < m implies #[trigger] exact(hist[start + j]) == exact(wrap(bin(j))) by {
        assert(hist[start + j] == wrap(node_sum(ell, gpairs, rows, ell.cut_ptrs[f] + j)));
        assert forall|i: int| 0 <= i < n implies #[trigger] row_sum(ell, gpairs, rows[i], ell.cut_ptrs[f] + j) == cell(
            i,
            j,
        ) by {
            lemma_row_bin(ell, gpairs, rows[i], f, j);
        }
        lemma_total_same(
            n,
            |i: int| row_sum(ell, gpairs, rows[i], ell.cut_ptrs[f] + j),
            |i: int| cell(i, j),
        );
    }
    lemma_wrap_total(m, bin, |j: int| exact(hist[start + j]));
    lemma_total_swap(n, m, cell);
    lemma_total_same(m, bin, |j: int| total(n, |i: int| cell(i, j)));
    let across = |i: int| total(m, |j: int| cell(i, j));
    assert forall|i: int| 0 <= i < n implies #[trigger] across(i) == picked(gpairs, rows[i], below) by {
        let term = |j: int| cell(i, j);
        match local_bin(ell, f, rows[i]) {
            Some(b) => {
                if 0 <= b < m {
                    lemma_total_single(m, term, b);
                } else {
                    lemma_total_zero(m, term);
                }
            },
            None => {
                lemma_total_zero(m, term);
            },
        }
    }
    lemma_total_same(n, across, |i: int| picked(gpairs, rows[i], below));
}

/// The left sum that the search gives a split of feature `f` at its bin `i`: the bins up to
/// it going forward; the node's sum without the bins from it on going backward.
#[verifier::opaque]
pub open spec fn searched_left(
    hist: Seq<GradientPairInt64>,
    start: int,
    width: int,
    sum: GradientPairInt64,
    i: int,
    backward: bool,
) -> GradientPairInt64 {
    if backward {
        wrap(minus(exact(sum), run_sum(hist, start + i, width - i)))
    } else {
        wrap(run_sum(hist, start, i + 1))
    }
}

/// The partitioner sends the bins that the search put on the left: going forward those up
/// to bin `i`, going backward those before it and the missing values.
pub open spec fn parts_at(sp: &SegmentSplit, f: int, i: int, backward: bool) -> bool {
    &&& sp.fidx == f
    &&& sp.cat_bits.len() == 0
    &&& sp.default_left == backward
    &&& sp.cond == (if backward {
        i - 1
    } else {
        i
    })
}

/// The sums and the partition name the same split: where a node's sum is that of its rows,
/// the left sum that the search found is that of the rows that the partitioner sends left,
/// and what remains of the node's sum is that of the rows it sends right.
pub proof fn lemma_split_parts_the_sum(
    ell: &DeviceEllpack,
    gpairs: Seq<GradientPairInt64>,
    rows: Seq<u32>,
    hist: Seq<GradientPairInt64>,
    start: int,
    sum: GradientPairInt64,
    sp: &SegmentSplit,
    f: int,
    i: int,
    backward: bool,
)
    requires
        binned(ell),
        rows_in(ell, rows),
        0 <= f < ell.row_stride,
        0 <= i < ell.cut_ptrs[f + 1] - ell.cut_ptrs[f],
        holds_bins(ell, gpairs, rows, hist, start, f),
        sum == wrap(rows_total(gpairs, rows)),
        parts_at(sp, f, i, backward),
    ensures
        ({
            let left = searched_left(hist, start, ell.cut_ptrs[f + 1] - ell.cut_ptrs[f], sum, i, backward);
            &&& left == wrap(rows_total(gpairs, rows.filter(sp.left(ell))))
            &&& wrap(minus(exact(sum), exact(left))) == wrap(rows_total(gpairs, rows.filter(sp.right(ell))))
        }),
{
    reveal(searched_left);
    let width = ell.cut_ptrs[f + 1] - ell.cut_ptrs[f];
    let p = sp.left(ell);
    let q = sp.right(ell);
    let n = rows.len() as int;
    lemma_picked(gpairs, rows, p);
    lemma_picked(gpairs, rows, q);
    lemma_picked_all(gpairs, rows, p, q);
    let on_left = picked_total(gpairs, rows, p);
    let on_right = picked_total(gpairs, rows, q);
    let left = searched_left(hist, start, width, sum, i, backward);
    if backward {
        let low = |row: u32| in_bins(ell, f, 0, i, row);
        let all = |row: u32| in_bins(ell, f, 0, width, row);
        lemma_run_is_rows(ell, gpairs, rows, hist, start, f, i);
        lemma_run_is_rows(ell, gpairs, rows, hist, start, f, width);
        lemma_suffix_from_prefix(hist, start, width, i);
        let a = run_sum(hist, start, width);
        let b = run_sum(hist, start, i);
        lemma_wrap_plus(a, b);
        lemma_wrap_plus(picked_total(gpairs, rows, all), picked_total(gpairs, rows, low));
        // The rows that go right have a value, in a bin that is not a low one.
        let low_terms = |k: int| picked(gpairs, rows[k], low);
        let right_terms = |k: int| picked(gpairs, rows[k], q);
        lemma_total_plus(n, low_terms, right_terms);
        assert forall|k: int| 0 <= k < n implies #[trigger] plus(low_terms(k), right_terms(k)) == picked(
            gpairs,
            rows[k],
            all,
        ) by {
            assert(has_row(ell, rows[k]));
            match local_bin(ell, f, rows[k]) {
                Some(v) => assert(0 <= v < width),
                None => {},
            }
        }
        lemma_total_same(n, |k: int| plus(low_terms(k), right_terms(k)), |k: int| picked(gpairs, rows[k], all));
        let suffix = run_sum(hist, start + i, width - i);
        assert(wrap(suffix) == wrap(on_right));
        let whole = rows_total(gpairs, rows);
        lemma_wrap_exact(sum);
        lemma_wrap_plus(whole, suffix);
        lemma_wrap_plus(whole, on_right);
        lemma_wrap_plus(exact(sum), suffix);
        assert(minus(whole, on_right) == on_left);
        assert(left == wrap(on_left));
        lemma_wrap_plus(whole, on_left);
        assert(minus(whole, on_left) == on_right);
    } else {
        let low = |row: u32| in_bins(ell, f, 0, i + 1, row);
        lemma_run_is_rows(ell, gpairs, rows, hist, start, f, i + 1);
        assert forall|k: int| 0 <= k < n implies #[trigger] picked(gpairs, rows[k], low) == picked(
            gpairs,
            rows[k],
            p,
        ) by {
            assert(has_row(ell, rows[k]));
            match local_bin(ell, f, rows[k]) {
                Some(v) => assert(0 <= v < width),
                None => {},
            }
        }
        lemma_total_same(n, |k: int| picked(gpairs, rows[k], low), |k: int| picked(gpairs, rows[k], p));
        assert(left == wrap(on_left));
        let whole = rows_total(gpairs, rows);
        lemma_wrap_plus(whole, on_left);
        assert(minus(whole, on_left) == on_right);
    }
}

/// The cuts of feature `f` ascend, and its minimum lies below them.
pub open spec fn cuts_ascend(cuts: &HistogramCuts, f: int) -> bool {
    &&& forall|a: int, b: int|
        cuts.cut_ptrs[f] <= a < b < cuts.cut_ptrs[f + 1] ==> !same_spec(
            #[trigger] cuts.cut_values[a],
            #[trigger] cuts.cut_values[b],
        )
    &&& forall|b: int|
        cuts.cut_ptrs[f] <= b < cuts.cut_ptrs[f + 1] ==> !same_spec(cuts.min_values[f], #[trigger] cuts.cut_values[b])
}

/// A threshold split of feature `f` at its bin `i`, as the search writes it down.
pub open spec fn stands_at(ev: &SplitEvaluatorGpu, split: DeviceSplitCandidate, f: int, i: int, backward: bool) -> bool {
    &&& 0 <= f < ev.n_features
    &&& 0 <= i < ev.cut_ptrs[f + 1] - ev.cut_ptrs[f]
    &&& split.feature() == f
    &&& split.missing_left() == backward
    &&& !split.is_cat
    &&& split.split_value == ev.threshold_spec(f, ev.cut_ptrs[f] + i, backward)
}

/// The condition that the threshold of a split at bin `i` names: the bin itself going
/// forward, the bin before it going backward, none where that is below the first.
pub open spec fn condition_at(first: int, i: int, backward: bool) -> int {
    if !backward {
        first + i
    } else if i == 0 {
        -1
    } else {
        first + i - 1
    }
}

/// A threshold is found again among the cuts.
proof fn lemma_condition(grower: &GpuHistGrower, f: int, i: int, backward: bool, split_value: u32, cond: int)
    requires
        grower.wf(),
        grower.searches(),
        cuts_ascend(&grower.cuts, f),
        0 <= f < grower.n_features,
        0 <= i < grower.cuts.cut_ptrs[f + 1] - grower.cuts.cut_ptrs[f],
        split_value == grower.split_eval.threshold_spec(f, grower.cuts.cut_ptrs[f] + i, backward),
        grower.cuts.condition_of(f, split_value, cond),
    ensures
        cond == condition_at(grower.cuts.cut_ptrs[f] as int, i, backward),
{
    let cuts = &grower.cuts;
    let first = cuts.cut_ptrs[f] as int;
    let end = cuts.cut_ptrs[f + 1] as int;
    let want = condition_at(first, i, backward);
    assert(cuts.is_sorted(f));
    if backward && i == 0 {
        assert(split_value == cuts.min_values[f]);
        assert forall|b: int| first <= b < end implies !same_spec(split_value, #[trigger] cuts.cut_values[b]) by {}
    } else {
        assert(split_value == cuts.cut_values[want]);
        assert(!is_nan_spec(cuts.cut_values[want]));
        assert(same_spec(split_value, cuts.cut_values[want]));
        if cond < want {
            assert(!same_spec(cuts.cut_values[cond], cuts.cut_values[want]));
        } else if want < cond {
            assert(!same_spec(cuts.cut_values[want], cuts.cut_values[cond]));
        }
    }
}

/// The partitioner is told of the split that the search found.
pub proof fn lemma_told_of_split(
    grower: &GpuHistGrower,
    entry: &ExpandEntry,
    sp: &SegmentSplit,
    f: int,
    i: int,
    backward: bool,
)
    requires
        grower.wf(),
        grower.searches(),
        cuts_ascend(&grower.cuts, f),
        stands_at(&grower.split_eval, entry.split, f, i, backward),
        grower.splits_as(entry, sp),
    ensures
        parts_at(sp, f, i, backward),
{
    let first = grower.cuts.cut_ptrs[f] as int;
    let cond = if sp.cond == -1 {
        -1
    } else {
        first + sp.cond
    };
    assert(grower.cuts.condition_of(f, entry.split.split_value, cond));
    lemma_condition(grower, f, i, backward, entry.split.split_value, cond);
}

/// The grower's matrix has its entries in their features' own bins.
proof fn lemma_binned(grower: &GpuHistGrower)
    requires
        grower.wf(),
    ensures
        binned(&grower.engine.ell),
{
    let ell = &grower.engine.ell;
    assert forall|a: int, b: int| 0 <= a <= b < ell.cut_ptrs.len() implies #[trigger] ell.cut_ptrs[a]
        <= #[trigger] ell.cut_ptrs[b] by {
        if a < b {
            assert(grower.cuts.cut_ptrs[a] < grower.cuts.cut_ptrs[b]);
        }
    }
}

/// A node's histogram of target `t` holds its features' bins.
#[verifier::rlimit(30)]
proof fn lemma_node_holds(grower: &GpuHistGrower, growth: &TreeGrowth, held: Seq<ExpandEntry>, e: ExpandEntry, t: int, f: int)
    requires
        grower.wf(),
        growth.wf(grower, held),
        grower.node_ok(growth.gpairs@, &growth.partitioner, e),
        0 <= t < grower.n_targets,
        0 <= f < grower.n_features,
    ensures
        holds_bins(
            &grower.engine.ell,
            growth.gpairs[t].gpairs@,
            parent_rows(e, growth.partitioner.rows()),
            e.hist@,
            e.slot + t * grower.n_bins + grower.cuts.cut_ptrs[f],
            f,
        ),
        rows_in(&grower.engine.ell, parent_rows(e, growth.partitioner.rows())),
{
    let ell = &grower.engine.ell;
    let rows = parent_rows(e, growth.partitioner.rows());
    let all = growth.partitioner.rows();
    let bins = target_bins(e.hist@, e.slot as int, grower.n_bins as int, t);
    let first = grower.cuts.cut_ptrs[f] as int;
    let last = grower.cuts.cut_ptrs.len() - 1;
    assert(grower.cuts.cut_ptrs[f] < grower.cuts.cut_ptrs[f + 1]);
    if f + 1 < last {
        assert(grower.cuts.cut_ptrs[f + 1] < grower.cuts.cut_ptrs[last]);
    }
    assert(0 <= t * grower.n_bins && t * grower.n_bins + grower.n_bins <= grower.n_targets * grower.n_bins)
        by (nonlinear_arith)
        requires
            0 <= t < grower.n_targets,
            0 <= grower.n_bins,
    ;
    assert forall|j: int| 0 <= j < ell.cut_ptrs[f + 1] - ell.cut_ptrs[f] implies #[trigger] e.hist@[e.slot + t
        * grower.n_bins + first + j] == wrap(
        node_sum(ell, growth.gpairs[t].gpairs@, rows, ell.cut_ptrs[f] + j),
    ) by {
        assert(bins[first + j] == e.hist@[e.slot + t * grower.n_bins + first + j]);
    }
    assert forall|k: int| 0 <= k < rows.len() implies has_row(ell, #[trigger] rows[k]) by {
        lemma_row_known(grower, growth, held, e.seg_begin + k);
    }
}

/// Every row of the row index is a row of the matrix.
proof fn lemma_row_known(grower: &GpuHistGrower, growth: &TreeGrowth, held: Seq<ExpandEntry>, k: int)
    requires
        grower.wf(),
        growth.wf(grower, held),
        0 <= k < growth.partitioner.rows().len(),
    ensures
        has_row(&grower.engine.ell, growth.partitioner.rows()[k]),
{
    broadcast use vstd::seq_lib::group_to_multiset_ensures;

    let rows = growth.partitioner.rows();
    let all = all_rows(grower.n_rows as int);
    assert(rows.contains(rows[k]));
    assert(rows.to_multiset().count(rows[k]) > 0);
    assert(all.to_multiset().count(rows[k]) > 0);
    assert(all.contains(rows[k]));
    let j = choose|j: int| 0 <= j < all.len() && all[j] == rows[k];
    assert(all[j] == j as u32);
}

/// The node's sum is that of its rows' gradients.
pub open spec fn sum_ok(gpairs: Seq<GradientPairInt64>, ridx: Seq<u32>, e: ExpandEntry) -> bool {
    e.sum == wrap(rows_total(gpairs, parent_rows(e, ridx)))
}

/// The node's split is one that the search of its histogram lists: a threshold at a bin of a
/// feature, with the left sum that goes with it.
pub open spec fn searched_split(grower: &GpuHistGrower, e: ExpandEntry, f: int, i: int, backward: bool) -> bool {
    let ev = &grower.split_eval;
    &&& stands_at(ev, e.split, f, i, backward)
    &&& (GradientPairInt64 { grad: e.split.left_grad, hess: e.split.left_hess }) == searched_left(
        e.hist@,
        e.slot + ev.cut_ptrs[f],
        ev.cut_ptrs[f + 1] - ev.cut_ptrs[f],
        e.sum,
        i,
        backward,
    )
}

/// Rows of a child, in the row index after its parent was split.
proof fn lemma_child_rows(
    grower: &GpuHistGrower,
    parent: ExpandEntry,
    sp: &SegmentSplit,
    before: Seq<u32>,
    after: Seq<u32>,
    n_left: u32,
    child: ExpandEntry,
    right: bool,
)
    requires
        grower.splits_as(&parent, sp),
        parent.seg_begin + parent.seg_len <= before.len(),
        before.len() == after.len(),
        before.len() <= u32::MAX,
        sp.segment(after) == sp.parted(&grower.engine.ell, before),
        n_left == sp.segment(before).filter(sp.left(&grower.engine.ell)).len(),
        (child.seg_begin, child.seg_len) == child_seg(parent, n_left, right),
    ensures
        parent_rows(child, after) == parent_rows(parent, before).filter(
            if right {
                sp.right(&grower.engine.ell)
            } else {
                sp.left(&grower.engine.ell)
            },
        ),
{
    let ell = &grower.engine.ell;
    let rows = parent_rows(parent, before);
    assert(rows == sp.segment(before));
    lemma_filter_counts(rows, sp.left(ell), sp.right(ell));
    let l = rows.filter(sp.left(ell));
    let r = rows.filter(sp.right(ell));
    let seg = after.subrange(parent.seg_begin as int, parent.seg_begin + parent.seg_len);
    assert(seg == l + r);
    if right {
        assert(parent_rows(child, after) =~= seg.subrange(l.len() as int, seg.len() as int));
        assert((l + r).subrange(l.len() as int, (l + r).len() as int) =~= r);
    } else {
        assert(parent_rows(child, after) =~= seg.subrange(0, l.len() as int));
        assert((l + r).subrange(0, l.len() as int) =~= l);
    }
}

/// Splitting a node whose sum is that of its rows makes children whose sums are those of
/// theirs.
pub proof fn lemma_children_sum_ok(
    grower: &GpuHistGrower,
    was: &TreeGrowth,
    held: Seq<ExpandEntry>,
    parent: ExpandEntry,
    sp: &SegmentSplit,
    after: Seq<u32>,
    ids: ChildIds,
    n_left: u32,
    child: ExpandEntry,
    right: bool,
    hist: Seq<GradientPairInt64>,
    slot: int,
    f: int,
    i: int,
    backward: bool,
)
    requires
        grower.wf(),
        grower.searches(),
        grower.n_targets == 1,
        was.wf(grower, held),
        grower.node_ok(was.gpairs@, &was.partitioner, parent),
        sum_ok(was.gpairs[0].gpairs@, was.partitioner.rows(), parent),
        cuts_ascend(&grower.cuts, f),
        searched_split(grower, parent, f, i, backward),
        grower.splits_as(&parent, sp),
        after.len() == was.partitioner.rows().len(),
        sp.segment(after) == sp.parted(&grower.engine.ell, was.partitioner.rows()),
        n_left == sp.segment(was.partitioner.rows()).filter(sp.left(&grower.engine.ell)).len(),
        is_child(child, parent, ids, n_left, right, hist, slot),
    ensures
        sum_ok(was.gpairs[0].gpairs@, after, child),
{
    let ell = &grower.engine.ell;
    let before = was.partitioner.rows();
    let rows = parent_rows(parent, before);
    let start = parent.slot + grower.cuts.cut_ptrs[f];
    lemma_told_of_split(grower, &parent, sp, f, i, backward);
    lemma_binned(grower);
    lemma_node_holds(grower, was, held, parent, 0, f);
    assert(0 * grower.n_bins == 0) by (nonlinear_arith);
    lemma_split_parts_the_sum(
        ell,
        was.gpairs[0].gpairs@,
        rows,
        parent.hist@,
        start,
        parent.sum,
        sp,
        f,
        i,
        backward,
    );
    lemma_child_rows(grower, parent, sp, before, after, n_left, child, right);
}

/// `trial` is the split of a feature's scan at one of its `n` bins.
pub open spec fn scan_split(
    hist: Seq<GradientPairInt64>,
    start: int,
    ibegin: int,
    n: int,
    parent: GradientPairInt64,
    trial: Trial,
    j: int,
) -> bool {
    &&& 0 <= j < n
    &&& trial.bin == ibegin + j
    &&& trial.left == searched_left(hist, start, n, parent, j, trial.backward)
}

/// `trial` is the split of a feature's scan at some bin of its.
pub open spec fn is_scan_split(
    hist: Seq<GradientPairInt64>,
    start: int,
    ibegin: int,
    n: int,
    parent: GradientPairInt64,
    trial: Trial,
) -> bool {
    exists|j: int| #[trigger] scan_split(hist, start, ibegin, n, parent, trial, j)
}

/// Every split that a scan lists stands at one of the feature's bins.
proof fn lemma_scan_splits(
    hist: Seq<GradientPairInt64>,
    start: int,
    ibegin: int,
    n: int,
    parent: GradientPairInt64,
    m: int,
    k: int,
)
    requires
        0 <= m <= n,
        0 <= ibegin,
        ibegin + n <= u32::MAX,
    ensures
        0 <= k < forward_trials(hist, start, ibegin, m).len() ==> is_scan_split(
            hist,
            start,
            ibegin,
            n,
            parent,
            forward_trials(hist, start, ibegin, m)[k],
        ),
        0 <= k < backward_trials(hist, start, ibegin, n, parent, m).len() ==> is_scan_split(
            hist,
            start,
            ibegin,
            n,
            parent,
            backward_trials(hist, start, ibegin, n, parent, m)[k],
        ),
    decreases m,
{
    reveal(searched_left);
    if m > 0 {
        lemma_scan_splits(hist, start, ibegin, n, parent, m - 1, k);
        let fw = forward_trials(hist, start, ibegin, m - 1);
        let bw = backward_trials(hist, start, ibegin, n, parent, m - 1);
        let forward = forward_trials(hist, start, ibegin, m);
        let backward = backward_trials(hist, start, ibegin, n, parent, m);
        if fw.len() <= k < forward.len() {
            assert(scan_split(hist, start, ibegin, n, parent, forward[k], m - 1));
        }
        if bw.len() <= k < backward.len() {
            assert(scan_split(hist, start, ibegin, n, parent, backward[k], n - m));
        }
    }
}

/// The lists of a node's features are those of the search of its histogram.
pub open spec fn lists_node(
    grower: &GpuHistGrower,
    i: int,
    batch: Seq<Vec<Trial>>,
    e: ExpandEntry,
    bounds: (u32, u32),
    features: Seq<u32>,
) -> bool {
    forall|f: int|
        0 <= f < grower.n_features ==> (#[trigger] batch[pair_index(i, grower.n_features as int, f)])@
            == grower.split_eval.trials_spec(e.hist@, input_of(e, bounds), f, grower.passed_over(features, f))
}

/// The node's split is one that the search of its histogram lists.
pub open spec fn is_searched(grower: &GpuHistGrower, e: ExpandEntry) -> bool {
    exists|f: int, j: int, backward: bool| #[trigger] searched_split(grower, e, f, j, backward)
}

/// A scan's split that a candidate takes over is one that the search lists.
#[verifier::rlimit(30)]
proof fn lemma_candidate_is_searched(
    grower: &GpuHistGrower,
    f: int,
    e: ExpandEntry,
    trial: Trial,
    c: DeviceSplitCandidate,
)
    requires
        grower.wf(),
        grower.searches(),
        0 <= f < grower.n_features,
        ({
            let ev = &grower.split_eval;
            &&& is_scan_split(
                e.hist@,
                e.slot + ev.cut_ptrs[f],
                ev.cut_ptrs[f] as int,
                ev.cut_ptrs[f + 1] - ev.cut_ptrs[f],
                e.sum,
                trial,
            )
            &&& c.sindex == f + (if trial.backward {
                DEFAULT_LEFT_BIT as int
            } else {
                0
            })
            &&& c.split_value == ev.threshold_spec(f, trial.bin as int, trial.backward)
            &&& c.left_grad == trial.left.grad
            &&& c.left_hess == trial.left.hess
            &&& !c.is_cat
        }),
    ensures
        is_searched(grower, (ExpandEntry { split: c, ..e })),
{
    let ev = &grower.split_eval;
    let start = e.slot + ev.cut_ptrs[f];
    let ibegin = ev.cut_ptrs[f] as int;
    let n = ev.cut_ptrs[f + 1] - ev.cut_ptrs[f];
    let j = choose|j: int| #[trigger] scan_split(e.hist@, start, ibegin, n, e.sum, trial, j);
    assert(c.feature() == f && c.missing_left() == trial.backward);
    assert(stands_at(ev, c, f, j, trial.backward));
    let scored = ExpandEntry { split: c, ..e };
    assert(trial.left == GradientPairInt64 { grad: c.left_grad, hess: c.left_hess });
    assert(searched_split(grower, scored, f, j, trial.backward));
}

/// A feature's candidate that gains anything is one that the search lists.
proof fn lemma_feature_is_searched(
    grower: &GpuHistGrower,
    f: int,
    trials: Seq<Trial>,
    scores: Seq<u32>,
    e: ExpandEntry,
    bounds: (u32, u32),
    masked: bool,
    c: DeviceSplitCandidate,
)
    requires
        grower.wf(),
        grower.searches(),
        0 <= f < grower.n_features,
        trials == grower.split_eval.trials_spec(e.hist@, input_of(e, bounds), f, masked),
        grower.split_eval.candidate_spec(f, trials, scores, c),
        lt_spec(0, c.loss_chg),
    ensures
        is_searched(grower, (ExpandEntry { split: (DeviceSplitCandidate { is_cat: false, ..c }), ..e })),
{
    let ev = &grower.split_eval;
    let v = choose|v: Option<int>|
        #[trigger] wins_trials(trials, scores, v) && (match v {
            None => c == (DeviceSplitCandidate {
                loss_chg: 0,
                sindex: f as u32,
                split_value: ev.cut_values[0],
                left_grad: 0,
                left_hess: 0,
                is_cat: false,
            }),
            Some(k) => c == (DeviceSplitCandidate {
                loss_chg: scores[k],
                sindex: (f + (if trials[k].backward {
                    DEFAULT_LEFT_BIT as int
                } else {
                    0
                })) as u32,
                split_value: ev.threshold_spec(f, trials[k].bin as int, trials[k].backward),
                left_grad: trials[k].left.grad,
                left_hess: trials[k].left.hess,
                is_cat: false,
            }),
        });
    let k = v->0;
    assert(v is Some);
    assert(0 <= k < trials.len());
    let start = e.slot + ev.cut_ptrs[f];
    let ibegin = ev.cut_ptrs[f] as int;
    let n = ev.cut_ptrs[f + 1] - ev.cut_ptrs[f];
    assert(ev.cut_ptrs[f] <= ev.cut_ptrs[f + 1]);
    assert(e.sum == GradientPairInt64 { grad: e.sum.grad, hess: e.sum.hess });
    let forward = forward_trials(e.hist@, start, ibegin, n);
    lemma_scan_splits(e.hist@, start, ibegin, n, e.sum, n, k);
    lemma_scan_splits(e.hist@, start, ibegin, n, e.sum, n, k - forward.len());
    if k < forward.len() {
        assert(trials[k] == forward[k]);
    } else {
        assert(trials[k] == backward_trials(e.hist@, start, ibegin, n, e.sum, n)[k - forward.len()]);
    }
    lemma_candidate_is_searched(grower, f, e, trials[k], (DeviceSplitCandidate { is_cat: false, ..c }));
}

/// What the search finds for a node is one of the splits it lists: where a node's best
/// numeric split gains anything, it is a threshold at a bin of a feature, with the left sum
/// that goes with it.
pub proof fn lemma_best_is_searched(
    grower: &GpuHistGrower,
    i: int,
    batch: Seq<Vec<Trial>>,
    gains: Seq<Vec<u32>>,
    e: ExpandEntry,
    bounds: (u32, u32),
    features: Seq<u32>,
    best: DeviceSplitCandidate,
)
    requires
        grower.wf(),
        grower.searches(),
        lists_node(grower, i, batch, e, bounds, features),
        grower.split_eval.best_of_node(i, batch, gains, best),
        lt_spec(0, best.loss_chg),
    ensures
        is_searched(grower, (ExpandEntry { split: best, ..e })),
{
    let ev = &grower.split_eval;
    let nf = grower.n_features as int;
    let (candidates, w) = choose|candidates: Seq<DeviceSplitCandidate>, w: Option<int>|
        {
            &&& candidates.len() == ev.n_features
            &&& forall|f: int|
                0 <= f < ev.n_features ==> ev.candidate_spec(
                    f,
                    batch[pair_index(i, ev.n_features as int, f)]@,
                    gains[pair_index(i, ev.n_features as int, f)]@,
                    #[trigger] candidates[f],
                )
            &&& #[trigger] wins_features(candidates, w)
            &&& best == (match w {
                None => (DeviceSplitCandidate {
                    loss_chg: 0,
                    sindex: 0,
                    split_value: 0,
                    left_grad: 0,
                    left_hess: 0,
                    is_cat: false,
                }),
                Some(k) => (DeviceSplitCandidate { is_cat: false, ..candidates[k] }),
            })
        };
    assert(w is Some);
    let f = w->0;
    assert(0 <= f < nf);
    assert(ev.candidate_spec(f, batch[pair_index(i, nf, f)]@, gains[pair_index(i, nf, f)]@, candidates[f]));
    lemma_feature_is_searched(
        grower,
        f,
        batch[pair_index(i, nf, f)]@,
        gains[pair_index(i, nf, f)]@,
        e,
        bounds,
        grower.passed_over(features, f),
        candidates[f],
    );
}

/// The root's sum is that of all rows.
pub proof fn lemma_root_sum_ok(
    grower: &GpuHistGrower,
    columns: Seq<Vec<GradientPairInt64>>,
    root_gain: u32,
    root: ExpandEntry,
)
    requires
        grower.n_targets == 1,
        grower.n_rows <= u32::MAX,
        columns.len() == 1,
        columns[0].len() == grower.n_rows,
        grower.is_root(columns, root_gain, root),
    ensures
        sum_ok(columns[0]@, all_rows(grower.n_rows as int), root),
{
    let n = grower.n_rows as int;
    let rows = parent_rows(root, all_rows(n));
    assert(rows =~= all_rows(n));
    let sums = Seq::new(columns.len(), |t: int| wrap(column_sum(columns[t]@)));
    lemma_total_single(1, |t: int| exact(sums[t]), 0);
    assert(sums[0] == wrap(column_sum(columns[0]@)));
    lemma_wrap_exact(sums[0]);
    lemma_total_same(n, |i: int| exact(columns[0]@[i]), |i: int| exact(columns[0]@[rows[i] as int]));
}

/// What became of one node of a batch that was split.
pub(crate) proof fn lemma_split_applied(
    grower: &GpuHistGrower,
    was: &TreeGrowth,
    batch: Seq<ExpandEntry>,
    ids: Seq<ChildIds>,
    splits: Seq<SegmentSplit>,
    counts: Seq<u32>,
    hist: Seq<GradientPairInt64>,
    made: Seq<ExpandEntry>,
    now: &TreeGrowth,
    children: Seq<ExpandEntry>,
    pos: int,
)
    requires
        grower.expands(was, batch, ids, splits, counts, hist, made, now, children),
        0 <= pos < batch.len(),
    ensures
        grower.splits_as(&batch[pos], &splits[pos]),
        splits[pos].segment(now.partitioner.rows()) == splits[pos].parted(&grower.engine.ell, was.partitioner.rows()),
        counts[pos] == splits[pos].segment(was.partitioner.rows()).filter(splits[pos].left(&grower.engine.ell)).len(),
{
    let n = batch.len() as int;
    let ell = &grower.engine.ell;
    let before = was.partitioner.rows();
    let after = now.partitioner.rows();
    assert(splits.len() == n);
    assert(forall|k: int| 0 <= k < n ==> counts[k] == (#[trigger] splits[k]).segment(before).filter(splits[k].left(ell)).len());
    assert(forall|k: int| 0 <= k < n ==> (#[trigger] splits[k]).segment(after) == splits[k].parted(ell, before));
    assert(forall|k: int| 0 <= k < n ==> grower.splits_as(&batch[k], &#[trigger] splits[k]));
}

/// A child that a batch's split made has the sum of the rows it got.
proof fn lemma_made_sum_ok(
    grower: &GpuHistGrower,
    was: &TreeGrowth,
    batch: Seq<ExpandEntry>,
    ids: Seq<ChildIds>,
    splits: Seq<SegmentSplit>,
    counts: Seq<u32>,
    hist: Seq<GradientPairInt64>,
    made: Seq<ExpandEntry>,
    now: &TreeGrowth,
    children: Seq<ExpandEntry>,
    x: int,
)
    requires
        grower.wf(),
        grower.searches(),
        grower.n_targets == 1,
        forall|f: int| 0 <= f < grower.n_features ==> #[trigger] cuts_ascend(&grower.cuts, f),
        was.wf(grower, batch),
        forall|k: int| 0 <= k < batch.len() ==> sum_ok(was.gpairs[0].gpairs@, was.partitioner.rows(), #[trigger] batch[k]),
        forall|k: int| 0 <= k < batch.len() ==> is_searched(grower, #[trigger] batch[k]),
        batch.len() <= usize::MAX,
        grower.expands(was, batch, ids, splits, counts, hist, made, now, children),
        now.wf(grower, children),
        0 <= x < made.len(),
    ensures
        sum_ok(now.gpairs[0].gpairs@, now.partitioner.rows(), made[x]),
{
    grower.lemma_planned(batch, was.num_leaves as int, batch.len() as int);
    let plan = grower.planned(batch, was.num_leaves as int, batch.len() as int);
    assert(made.len() == 2 * plan.len());
    assert(0 <= x / 2 < plan.len());
    assert(plan[x / 2] < batch.len());
    let pos = plan[x / 2] as int;
    let parent = batch[pos];
    assert(grower.node_ok(was.gpairs@, &was.partitioner, batch[pos]));
    assert(is_searched(grower, batch[pos]));
    let (f, j, backward) = choose|f: int, j: int, backward: bool| #[trigger] searched_split(grower, parent, f, j, backward);
    assert(cuts_ascend(&grower.cuts, f));
    let sp = splits[pos];
    lemma_split_applied(grower, was, batch, ids, splits, counts, hist, made, now, children, pos);
    lemma_children_sum_ok(
        grower,
        was,
        batch,
        parent,
        &sp,
        now.partitioner.rows(),
        ids[pos],
        counts[pos],
        made[x],
        right_built(parent) != (x % 2 == 1),
        hist,
        unit_at(grower.n_targets as int, grower.n_bins as int, x, 0),
        f,
        j,
        backward,
    );
}

/// Splitting a batch keeps every sum true: where the sums of its nodes are those of their
/// rows, and their splits are ones that the search listed, the sum of every child is that of
/// the rows it got.
pub proof fn lemma_expand_keeps_sums(
    grower: &GpuHistGrower,
    was: &TreeGrowth,
    batch: Seq<ExpandEntry>,
    ids: Seq<ChildIds>,
    now: &TreeGrowth,
    children: Seq<ExpandEntry>,
)
    requires
        grower.wf(),
        grower.searches(),
        grower.n_targets == 1,
        forall|f: int| 0 <= f < grower.n_features ==> #[trigger] cuts_ascend(&grower.cuts, f),
        was.wf(grower, batch),
        forall|k: int| 0 <= k < batch.len() ==> sum_ok(was.gpairs[0].gpairs@, was.partitioner.rows(), #[trigger] batch[k]),
        forall|k: int| 0 <= k < batch.len() ==> is_searched(grower, #[trigger] batch[k]),
        batch.len() <= usize::MAX,
        grower.expanded(was, batch, ids, now, children),
        now.wf(grower, children),
    ensures
        forall|k: int|
            0 <= k < children.len() ==> sum_ok(now.gpairs[0].gpairs@, now.partitioner.rows(), #[trigger] children[k]),
{
    let (splits, counts, hist, made) = choose|
        splits: Seq<SegmentSplit>,
        counts: Seq<u32>,
        hist: Seq<GradientPairInt64>,
        made: Seq<ExpandEntry>,
    | #[trigger] grower.expands(was, batch, ids, splits, counts, hist, made, now, children);
    lemma_by_nid(made);
    assert forall|k: int| 0 <= k < children.len() implies sum_ok(
        now.gpairs[0].gpairs@,
        now.partitioner.rows(),
        #[trigger] children[k],
    ) by {
        assert(made.contains(by_nid(made)[k]));
        let x = choose|x: int| 0 <= x < made.len() && made[x] == children[k];
        lemma_made_sum_ok(grower, was, batch, ids, splits, counts, hist, made, now, children, x);
    }
}

/// Splitting a batch leaves the rows of a waiting node where they are, and so its sum true.
pub proof fn lemma_expand_leaves_waiting(
    grower: &GpuHistGrower,
    was: &TreeGrowth,
    batch: Seq<ExpandEntry>,
    ids: Seq<ChildIds>,
    now: &TreeGrowth,
    children: Seq<ExpandEntry>,
    q: int,
)
    requires
        was.wf(grower, batch),
        grower.expanded(was, batch, ids, now, children),
        now.wf(grower, children),
        0 <= q < was.queue.entries().len(),
    ensures
        now.queue == was.queue,
        parent_rows(was.queue.entries()[q], now.partitioner.rows()) == parent_rows(
            was.queue.entries()[q],
            was.partitioner.rows(),
        ),
{
    let e = was.queue.entries()[q];
    let (splits, counts, hist, made) = choose|
        splits: Seq<SegmentSplit>,
        counts: Seq<u32>,
        hist: Seq<GradientPairInt64>,
        made: Seq<ExpandEntry>,
    | #[trigger] grower.expands(was, batch, ids, splits, counts, hist, made, now, children);
    let n = batch.len() as int;
    let segs = was.segs(batch);
    let leaves = leaf_segs(was.leaf_segments@).len() as int;
    let waiting = entry_segs(was.queue.entries()).len() as int;
    assert(grower.node_ok(was.gpairs@, &was.partitioner, was.queue.entries()[q]));
    assert forall|i: int| e.seg_begin <= i < e.seg_begin + e.seg_len implies #[trigger] now.partitioner.rows()[i]
        == was.partitioner.rows()[i] by {
        lemma_owners_at_least(segs, i);
        assert(owners(segs, i) == 1);
        assert(segs[leaves + q] == (e.seg_begin, e.seg_len));
        assert(lies_in(segs[leaves + q], i));
        assert forall|s: int| 0 <= s < n implies !#[trigger] splits[s].owns(i) by {
            lemma_split_applied(grower, was, batch, ids, splits, counts, hist, made, now, children, s);
            assert(segs[leaves + waiting + s] == (batch[s].seg_begin, batch[s].seg_len));
            if splits[s].owns(i) {
                assert(lies_in(segs[leaves + waiting + s], i));
            }
        }
        assert(unowned(splits, n, i));
    }
    assert(parent_rows(e, now.partitioner.rows()) =~= parent_rows(e, was.partitioner.rows()));
}

/// The condition that a threshold names gives every target the sum that the search had for
/// it.
pub proof fn lemma_target_sums_searched(
    grower: &GpuHistGrower,
    e: ExpandEntry,
    split: DeviceSplitCandidate,
    f: int,
    i: int,
    backward: bool,
    t: int,
    cond: int,
)
    requires
        grower.wf(),
        grower.searches(),
        cuts_ascend(&grower.cuts, f),
        stands_at(&grower.split_eval, split, f, i, backward),
        grower.cuts.condition_of(f, split.split_value, cond),
    ensures
        child_left(&grower.split_eval, e.hist@, e.slot as int, e.target_sums@, t, f, cond, backward) == target_left(
            &grower.split_eval,
            e.hist@,
            e.slot as int,
            e.target_sums@,
            t,
            f,
            i,
            backward,
        ),
{
    lemma_condition(grower, f, i, backward, split.split_value, cond);
}

/// The sums of the single targets of a vector-leaf split add up to the sum that its
/// candidate carries.
pub proof fn lemma_targets_add_up(grower: &GpuHistGrower, e: ExpandEntry, found: Found, f: int, i: int, backward: bool)
    requires
        grower.wf(),
        grower.searches(),
        cuts_ascend(&grower.cuts, f),
        e.target_sums.len() == grower.n_targets,
        stands_at(&grower.split_eval, found.split, f, i, backward),
        (GradientPairInt64 { grad: found.split.left_grad, hess: found.split.left_hess }) == summed_left(
            &grower.split_eval,
            e.hist@,
            e.slot as int,
            e.target_sums@,
            f,
            i,
            backward,
        ),
        grower.target_sums_of(e, found),
    ensures
        (GradientPairInt64 { grad: found.split.left_grad, hess: found.split.left_hess }) == wrap(
            column_sum(found.left_target_sums@),
        ),
{
    let ev = &grower.split_eval;
    let cond = choose|cond: int|
        #[trigger] grower.cuts.condition_of(found.split.feature() as int, found.split.split_value, cond)
            && grower.sums_at(e, found, cond);
    let n = grower.n_targets as int;
    let searched = |t: int| exact(target_left(ev, e.hist@, e.slot as int, e.target_sums@, t, f, i, backward));
    let taken = |t: int| exact(found.left_target_sums@[t]);
    assert forall|t: int| 0 <= t < n implies #[trigger] searched(t) == taken(t) by {
        lemma_target_sums_searched(grower, e, found.split, f, i, backward, t, cond);
        assert(found.left_target_sums[t] == child_left(
            ev,
            e.hist@,
            e.slot as int,
            e.target_sums@,
            t,
            f,
            cond,
            backward,
        ));
    }
    lemma_total_same(n, searched, taken);
}

/// The sums and the partition name the same split of a vector-leaf node too: where the sum of
/// a target is that of the node's rows, the child sums found for it are those of the rows
/// that go left and of those that go right.
pub proof fn lemma_targets_parted(
    grower: &GpuHistGrower,
    growth: &TreeGrowth,
    held: Seq<ExpandEntry>,
    e: ExpandEntry,
    found: Found,
    sp: &SegmentSplit,
    f: int,
    i: int,
    backward: bool,
    t: int,
)
    requires
        grower.wf(),
        grower.searches(),
        growth.wf(grower, held),
        grower.node_ok(growth.gpairs@, &growth.partitioner, e),
        cuts_ascend(&grower.cuts, f),
        e.target_sums.len() == grower.n_targets,
        0 <= t < grower.n_targets,
        e.target_sums[t] == wrap(rows_total(growth.gpairs[t].gpairs@, parent_rows(e, growth.partitioner.rows()))),
        stands_at(&grower.split_eval, found.split, f, i, backward),
        grower.target_sums_of(e, found),
        grower.splits_as(&(ExpandEntry { split: found.split, ..e }), sp),
    ensures
        found.left_target_sums[t] == wrap(
            rows_total(
                growth.gpairs[t].gpairs@,
                parent_rows(e, growth.partitioner.rows()).filter(sp.left(&grower.engine.ell)),
            ),
        ),
        found.right_target_sums[t] == wrap(
            rows_total(
                growth.gpairs[t].gpairs@,
                parent_rows(e, growth.partitioner.rows()).filter(sp.right(&grower.engine.ell)),
            ),
        ),
{
    reveal(searched_left);
    let cond = choose|cond: int|
        #[trigger] grower.cuts.condition_of(found.split.feature() as int, found.split.split_value, cond)
            && grower.sums_at(e, found, cond);
    lemma_target_sums_searched(grower, e, found.split, f, i, backward, t, cond);
    lemma_told_of_split(grower, &(ExpandEntry { split: found.split, ..e }), sp, f, i, backward);
    lemma_binned(grower);
    lemma_node_holds(grower, growth, held, e, t, f);
    lemma_split_parts_the_sum(
        &grower.engine.ell,
        growth.gpairs[t].gpairs@,
        parent_rows(e, growth.partitioner.rows()),
        e.hist@,
        e.slot + t * grower.n_bins + grower.cuts.cut_ptrs[f],
        e.target_sums[t],
        sp,
        f,
        i,
        backward,
    );
    assert(found.right_target_sums[t] == wrap(minus(exact(e.target_sums[t]), exact(found.left_target_sums[t]))));
}

// ------------------------------------------------------------ categories ----

/// Bin `j`'s sum, where `inside` picks the bin.
pub open spec fn kept(bins: Seq<GradientPairInt64>, inside: spec_fn(int) -> bool, j: int) -> PairSum {
    if inside(j) {
        exact(bins[j])
    } else {
        zero()
    }
}

/// The sum of the bins that `inside` picks.
pub open spec fn kept_total(bins: Seq<GradientPairInt64>, inside: spec_fn(int) -> bool) -> PairSum {
    total(bins.len() as int, |j: int| kept(bins, inside, j))
}

/// The row has a value for the feature, in a bin that `inside` picks.
pub open spec fn in_set(ell: &DeviceEllpack, f: int, inside: spec_fn(int) -> bool, row: u32) -> bool {
    match local_bin(ell, f, row) {
        Some(b) => inside(b),
        None => false,
    }
}

/// The sum of any of a feature's bins is the sum of the rows that stand in them.
proof fn lemma_set_is_rows(
    ell: &DeviceEllpack,
    gpairs: Seq<GradientPairInt64>,
    rows: Seq<u32>,
    bins: Seq<GradientPairInt64>,
    f: int,
    inside: spec_fn(int) -> bool,
)
    requires
        binned(ell),
        rows_in(ell, rows),
        0 <= f < ell.row_stride,
        bins.len() == ell.cut_ptrs[f + 1] - ell.cut_ptrs[f],
        holds_bins(ell, gpairs, rows, bins, 0, f),
    ensures
        wrap(kept_total(bins, inside)) == wrap(picked_total(gpairs, rows, |row: u32| in_set(ell, f, inside, row))),
{
    let n = rows.len() as int;
    let m = bins.len() as int;
    let chosen = |row: u32| in_set(ell, f, inside, row);
    let cell = |i: int, j: int|
        if inside(j) && local_bin(ell, f, rows[i]) == Some(j) {
            exact(gpairs[rows[i] as int])
        } else {
            zero()
        };
    let bin = |j: int| total(n, |i: int| cell(i, j));
    let held = |j: int| kept(bins, inside, j);
    assert forall|j: int| 0 <= j < m implies #[trigger] held(j) == exact(wrap(bin(j))) by {
        assert(bins[0 + j] == wrap(node_sum(ell, gpairs, rows, ell.cut_ptrs[f] + j)));
        if inside(j) {
            assert forall|i: int| 0 <= i < n implies #[trigger] row_sum(ell, gpairs, rows[i], ell.cut_ptrs[f] + j)
                == cell(i, j) by {
                lemma_row_bin(ell, gpairs, rows[i], f, j);
            }
            lemma_total_same(
                n,
                |i: int| row_sum(ell, gpairs, rows[i], ell.cut_ptrs[f] + j),
                |i: int| cell(i, j),
            );
        } else {
            lemma_total_zero(n, |i: int| cell(i, j));
            lemma_wrap_exact(GradientPairInt64 { grad: 0, hess: 0 });
            assert(zero() == exact(GradientPairInt64 { grad: 0, hess: 0 }));
        }
    }
    lemma_wrap_total(m, bin, held);
    lemma_total_swap(n, m, cell);
    lemma_total_same(m, bin, |j: int| total(n, |i: int| cell(i, j)));
    let across = |i: int| total(m, |j: int| cell(i, j));
    assert forall|i: int| 0 <= i < n implies #[trigger] across(i) == picked(gpairs, rows[i], chosen) by {
        let term = |j: int| cell(i, j);
        assert(has_row(ell, rows[i]));
        match local_bin(ell, f, rows[i]) {
            Some(b) => {
                assert(0 <= b < m);
                lemma_total_single(m, term, b);
            },
            None => {
                lemma_total_zero(m, term);
            },
        }
    }
    lemma_total_same(n, across, |i: int| picked(gpairs, rows[i], chosen));
}

/// The first `p` entries of `order` name bin `j`.
pub open spec fn in_head(order: Seq<usize>, p: int, j: int) -> bool {
    exists|k: int| 0 <= k < p && #[trigger] order[k] == j
}

/// An order of all `n` bins, each of them once.
pub open spec fn orders(order: Seq<usize>, n: int) -> bool {
    &&& order.len() == n
    &&& forall|k: int| 0 <= k < n ==> #[trigger] order[k] < n
    &&& forall|a: int, b: int| 0 <= a < b < n ==> #[trigger] order[a] != #[trigger] order[b]
}

/// The bins at the head of an order.
proof fn lemma_head_is_set(bins: Seq<GradientPairInt64>, order: Seq<usize>, p: int)
    requires
        orders(order, bins.len() as int),
        0 <= p <= bins.len(),
    ensures
        head_sum(bins, order, p) == kept_total(bins, |j: int| in_head(order, p, j)),
    decreases p,
{
    let n = bins.len() as int;
    let now = |j: int| in_head(order, p, j);
    if p == 0 {
        lemma_total_zero(n, |j: int| kept(bins, now, j));
    } else {
        lemma_head_is_set(bins, order, p - 1);
        let was = |j: int| in_head(order, p - 1, j);
        let new = order[p - 1] as int;
        let one = |j: int|
            if j == new {
                exact(bins[j])
            } else {
                zero()
            };
        let before = |j: int| kept(bins, was, j);
        lemma_total_plus(n, before, one);
        lemma_total_single(n, one, new);
        assert forall|j: int| 0 <= j < n implies #[trigger] plus(before(j), one(j)) == kept(bins, now, j) by {
            assert(order[p - 1] == new);
            if j == new {
                assert(now(j));
                if was(j) {
                    let k = choose|k: int| 0 <= k < p - 1 && #[trigger] order[k] == j;
                    assert(order[k] != order[p - 1]);
                }
            } else if now(j) {
                let k = choose|k: int| 0 <= k < p && #[trigger] order[k] == j;
                assert(k < p - 1);
            } else if was(j) {
                let k = choose|k: int| 0 <= k < p - 1 && #[trigger] order[k] == j;
                assert(now(j));
            }
        }
        lemma_total_same(n, |j: int| plus(before(j), one(j)), |j: int| kept(bins, now, j));
    }
}

/// The bins that a set picks and those it does not make up all of them.
proof fn lemma_kept_all(bins: Seq<GradientPairInt64>, inside: spec_fn(int) -> bool, outside: spec_fn(int) -> bool)
    requires
        forall|j: int| #[trigger] outside(j) == !inside(j),
    ensures
        plus(kept_total(bins, inside), kept_total(bins, outside)) == bins_sum(bins),
{
    let n = bins.len() as int;
    let a = |j: int| kept(bins, inside, j);
    let b = |j: int| kept(bins, outside, j);
    lemma_total_plus(n, a, b);
    assert forall|j: int| 0 <= j < n implies #[trigger] plus(a(j), b(j)) == exact(bins[j]) by {
        assert(outside(j) == !inside(j));
    }
    lemma_total_same(n, |j: int| plus(a(j), b(j)), |j: int| exact(bins[j]));
}

/// The head of an order and its tail make up all bins.
proof fn lemma_head_and_tail(bins: Seq<GradientPairInt64>, order: Seq<usize>, q: int)
    requires
        orders(order, bins.len() as int),
        0 <= q <= bins.len(),
    ensures
        plus(head_sum(bins, order, bins.len() - q), tail_sum(bins, order, q)) == head_sum(
            bins,
            order,
            bins.len() as int,
        ),
    decreases q,
{
    let n = bins.len() as int;
    if q > 0 {
        lemma_head_and_tail(bins, order, q - 1);
        assert(head_sum(bins, order, n - q + 1) == plus(
            head_sum(bins, order, n - q),
            exact(bins[order[n - q] as int]),
        ));
        assert(tail_sum(bins, order, q) == plus(tail_sum(bins, order, q - 1), exact(bins[order[n - 1 - (q - 1)] as int])));
    }
}

/// The partitioner sends right the bins of a set, and the missing values where they do not
/// go left.
pub open spec fn parts_by(sp: &SegmentSplit, f: int, inside: spec_fn(int) -> bool, n: int, default_left: bool) -> bool {
    &&& sp.fidx == f
    &&& sp.default_left == default_left
    &&& sp.cat_bits.len() > 0
    &&& forall|j: int| 0 <= j < n ==> bit(sp.cat_bits[j / 32], j % 32) == #[trigger] inside(j)
}

/// The left sum of a split that sends a set of bins right: the node's sum without the set
/// where missing values go left, what the other bins hold where they go right.
pub open spec fn set_left(
    bins: Seq<GradientPairInt64>,
    sum: GradientPairInt64,
    inside: spec_fn(int) -> bool,
    default_left: bool,
) -> GradientPairInt64 {
    if default_left {
        wrap(minus(exact(sum), kept_total(bins, inside)))
    } else {
        wrap(minus(bins_sum(bins), kept_total(bins, inside)))
    }
}

/// A categorical split and the partition agree: the left sum is that of the rows that go
/// left, and what remains of the node's sum that of the rows that go right.
pub proof fn lemma_set_parts_the_sum(
    ell: &DeviceEllpack,
    gpairs: Seq<GradientPairInt64>,
    rows: Seq<u32>,
    bins: Seq<GradientPairInt64>,
    sum: GradientPairInt64,
    sp: &SegmentSplit,
    f: int,
    inside: spec_fn(int) -> bool,
    default_left: bool,
)
    requires
        binned(ell),
        rows_in(ell, rows),
        0 <= f < ell.row_stride,
        bins.len() == ell.cut_ptrs[f + 1] - ell.cut_ptrs[f],
        holds_bins(ell, gpairs, rows, bins, 0, f),
        sum == wrap(rows_total(gpairs, rows)),
        parts_by(sp, f, inside, bins.len() as int, default_left),
    ensures
        set_left(bins, sum, inside, default_left) == wrap(rows_total(gpairs, rows.filter(sp.left(ell)))),
        wrap(minus(exact(sum), exact(set_left(bins, sum, inside, default_left)))) == wrap(
            rows_total(gpairs, rows.filter(sp.right(ell))),
        ),
{
    let p = sp.left(ell);
    let q = sp.right(ell);
    let n = rows.len() as int;
    lemma_picked(gpairs, rows, p);
    lemma_picked(gpairs, rows, q);
    lemma_picked_all(gpairs, rows, p, q);
    let on_left = picked_total(gpairs, rows, p);
    let on_right = picked_total(gpairs, rows, q);
    let whole = rows_total(gpairs, rows);
    let left = set_left(bins, sum, inside, default_left);
    if default_left {
        let chosen = |row: u32| in_set(ell, f, inside, row);
        lemma_set_is_rows(ell, gpairs, rows, bins, f, inside);
        assert forall|k: int| 0 <= k < n implies #[trigger] picked(gpairs, rows[k], chosen) == picked(
            gpairs,
            rows[k],
            q,
        ) by {
            assert(has_row(ell, rows[k]));
            match local_bin(ell, f, rows[k]) {
                Some(v) => assert(bit(sp.cat_bits[v / 32], v % 32) == inside(v)),
                None => {},
            }
        }
        lemma_total_same(n, |k: int| picked(gpairs, rows[k], chosen), |k: int| picked(gpairs, rows[k], q));
        let set = kept_total(bins, inside);
        assert(wrap(set) == wrap(on_right));
        lemma_wrap_minus(whole, set, on_right, sum);
        assert(minus(whole, on_right) == on_left);
        assert(left == wrap(on_left));
    } else {
        let outside = |j: int| !inside(j);
        let chosen = |row: u32| in_set(ell, f, outside, row);
        lemma_set_is_rows(ell, gpairs, rows, bins, f, outside);
        lemma_kept_all(bins, inside, outside);
        assert forall|k: int| 0 <= k < n implies #[trigger] picked(gpairs, rows[k], chosen) == picked(
            gpairs,
            rows[k],
            p,
        ) by {
            assert(has_row(ell, rows[k]));
            match local_bin(ell, f, rows[k]) {
                Some(v) => assert(bit(sp.cat_bits[v / 32], v % 32) == inside(v)),
                None => {},
            }
        }
        lemma_total_same(n, |k: int| picked(gpairs, rows[k], chosen), |k: int| picked(gpairs, rows[k], p));
        assert(minus(bins_sum(bins), kept_total(bins, inside)) == kept_total(bins, outside));
        assert(left == wrap(on_left));
    }
    lemma_wrap_plus(whole, on_left);
    assert(minus(whole, on_left) == on_right);
}

/// Taking off a sum, or one that reduces to the same.
proof fn lemma_wrap_minus(whole: PairSum, a: PairSum, b: PairSum, sum: GradientPairInt64)
    requires
        sum == wrap(whole),
        wrap(a) == wrap(b),
    ensures
        wrap(minus(exact(sum), a)) == wrap(minus(whole, b)),
{
    lemma_wrap_plus(whole, b);
    lemma_wrap_plus(exact(sum), a);
    lemma_wrap_exact(sum);
}

/// The categories of a feature's cuts are its bins, in order.
pub open spec fn codes_in_order(cut_values: Seq<u32>) -> bool {
    forall|j: int| 0 <= j < cut_values.len() ==> category_spec(#[trigger] cut_values[j]) == Some(j as u32)
}

/// The bins that a trial of a plan sends right.
pub open spec fn set_of(plan: &CatPlan, trial: CatTrial, j: int) -> bool {
    if plan.one_hot {
        j == trial.choice
    } else {
        in_head(plan.order@, trial.choice as int, j)
    }
}

/// What a plan lists as a trial's left sum is that of its set.
proof fn lemma_trial_is_set(
    plan: &CatPlan,
    param: &TrainParam,
    bins: Seq<GradientPairInt64>,
    weights: Seq<u32>,
    parent: GradientPairInt64,
    x: int,
)
    requires
        plan.lists(param, bins, weights, parent),
        weights.len() == bins.len(),
        0 <= x < plan.trials.len(),
    ensures
        plan.trials[x].left == set_left(
            bins,
            parent,
            |j: int| set_of(plan, plan.trials[x], j),
            plan.trials[x].default_left,
        ),
{
    let n = bins.len() as int;
    let trial = plan.trials[x];
    let inside = |j: int| set_of(plan, trial, j);
    if plan.one_hot {
        let i = x / 2;
        lemma_total_single(n, |j: int| kept(bins, inside, j), i);
    } else {
        let order = plan.order@;
        let keys = Seq::new(weights.len(), |i: int| key_spec(weights[i]));
        assert(sorts(keys, order));
        assert(orders(order, n)) by {
            assert forall|a: int, b: int| 0 <= a < b < n implies #[trigger] order[a] != #[trigger] order[b] by {
                assert(comes_before(keys, order[a] as int, order[b] as int));
            }
        }
        let m = side_limit(n, param.max_cat_threshold);
        let c = trial.choice as int;
        lemma_head_is_set(bins, order, c);
        lemma_total_same(
            n,
            |j: int| kept(bins, |j: int| in_head(order, c, j), j),
            |j: int| kept(bins, inside, j),
        );
        if x >= m - 1 {
            let q = x - (m - 1) + 1;
            lemma_head_and_tail(bins, order, q);
            lemma_head_is_set(bins, order, n);
            assert forall|j: int| 0 <= j < n implies in_head(order, n, j) by {
                assert(listed(order, j));
            }
            lemma_total_same(
                n,
                |j: int| kept(bins, |j: int| in_head(order, n, j), j),
                |j: int| exact(bins[j]),
            );
            assert(minus(bins_sum(bins), head_sum(bins, order, c)) == tail_sum(bins, order, q));
        }
    }
}

/// What is found among a categorical feature's splits and the partition agree: where a node's
/// sum is that of its rows, the left sum of the candidate is that of the rows that go left.
pub proof fn lemma_categories_part_the_sum(
    ell: &DeviceEllpack,
    gpairs: Seq<GradientPairInt64>,
    rows: Seq<u32>,
    bins: Seq<GradientPairInt64>,
    sum: GradientPairInt64,
    plan: &CatPlan,
    param: &TrainParam,
    weights: Seq<u32>,
    cut_values: Seq<u32>,
    scores: Seq<Score>,
    x: int,
    candidate: CatCandidate,
    sp: &SegmentSplit,
    f: int,
)
    requires
        binned(ell),
        rows_in(ell, rows),
        0 <= f < ell.row_stride,
        0 < bins.len() == ell.cut_ptrs[f + 1] - ell.cut_ptrs[f],
        holds_bins(ell, gpairs, rows, bins, 0, f),
        sum == wrap(rows_total(gpairs, rows)),
        weights.len() == bins.len(),
        plan.lists(param, bins, weights, sum),
        cut_values.len() == bins.len(),
        codes_in_order(cut_values),
        0 <= x < plan.trials.len(),
        candidate_of(plan, cut_values, scores, x, candidate, sp.cat_bits@),
        sp.fidx == f,
        sp.default_left == candidate.default_left,
    ensures
        candidate.left == wrap(rows_total(gpairs, rows.filter(sp.left(ell)))),
        wrap(minus(exact(sum), exact(candidate.left))) == wrap(rows_total(gpairs, rows.filter(sp.right(ell)))),
{
    let n = bins.len() as int;
    let trial = plan.trials[x];
    let inside = |j: int| set_of(plan, trial, j);
    lemma_trial_is_set(plan, param, bins, weights, sum, x);
    assert(n <= u32::MAX);
    assert forall|j: int| 0 <= j < n implies bit(sp.cat_bits[j / 32], j % 32) == #[trigger] inside(j) by {
        assert(holds_category(sp.cat_bits@, j) == goes_right(plan, cut_values, trial, j));
        if plan.one_hot {
            assert(category_spec(cut_values[trial.choice as int]) == Some(trial.choice as u32));
        } else {
            let keys = Seq::new(weights.len(), |i: int| key_spec(weights[i]));
            assert(sorts(keys, plan.order@));
            if inside(j) {
                let k = choose|k: int| 0 <= k < trial.choice && #[trigger] plan.order@[k] == j;
                assert(category_spec(cut_values[plan.order[k] as int]) == Some(j as u32));
                assert(goes_right(plan, cut_values, trial, j));
            }
            if goes_right(plan, cut_values, trial, j) {
                let k = choose|k: int|
                    0 <= k < trial.choice && category_spec(cut_values[(#[trigger] plan.order[k]) as int]) == Some(
                        j as u32,
                    ) && 0 <= j <= u32::MAX;
                assert(category_spec(cut_values[plan.order[k] as int]) == Some(plan.order[k] as u32));
                assert(plan.order@[k] == j);
            }
        }
    }
    lemma_set_parts_the_sum(ell, gpairs, rows, bins, sum, sp, f, inside, candidate.default_left);
}

} // verus!
