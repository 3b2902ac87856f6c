//! A vector leaf of one target.
//!
//! The vector-leaf search scores every bin, the scalar one only the bins that hold rows, and
//! both go by the same order. With one target they choose the same split.

use vstd::prelude::*;

use crate::float_bits::lt_spec;
use crate::gpu::evaluate_multi::{
    is_multi_trial, lists_multi, multi_missing, shared_trials, target_left, target_start, width, MultiTrial,
};
use crate::gpu::evaluate_splits::{
    any_trial, backward_trial, backward_trials, better_spec, bin_of_trial, forward_trial, forward_trials, has_missing,
    is_winner, lemma_empty_bin_never_wins, live, run_sum, trials_of, wins_trials, SplitEvaluatorGpu,
};
use crate::gpu::pairs::{exact, lemma_wrap_exact, plus, total, wrap, zero};
use crate::gpu::GradientPairInt64;

verus! {

/// A sum of one term.
proof fn lemma_one_term(g: GradientPairInt64, f: spec_fn(int) -> crate::gpu::pairs::PairSum)
    requires
        f(0) == exact(g),
    ensures
        wrap(total(1, f)) == g,
{
    assert(total(0, f) == zero());
    assert(total(1, f) == plus(total(0, f), f(0)));
    lemma_wrap_exact(g);
}

/// Split `k` of a vector leaf of one target is split `k` of a scan that passes over no bin.
proof fn lemma_same_trial(
    ev: &SplitEvaluatorGpu,
    hist: Seq<GradientPairInt64>,
    hist_base: int,
    parent: Seq<GradientPairInt64>,
    f: int,
    trials: Seq<MultiTrial>,
    k: int,
)
    requires
        ev.wf(),
        0 <= f < ev.n_features,
        parent.len() == 1,
        lists_multi(ev, hist, hist_base, parent, f, false, trials),
        0 <= k < trials.len(),
    ensures
        trials[k].trial == any_trial(
            hist,
            hist_base + ev.cut_ptrs[f],
            ev.cut_ptrs[f] as int,
            width(ev, f),
            parent[0],
            k,
        ),
        trials[k].trial.rank == k,
        trials[k].targets@ == seq![trials[k].trial.left],
{
    let n = width(ev, f);
    assert(ev.cut_ptrs[f] <= ev.cut_ptrs[f + 1]);
    let backward = k >= n;
    let i = bin_of_trial(n, k);
    assert(is_multi_trial(ev, hist, hist_base, parent, f, i, backward, trials[k]));
    assert(0 * ev.n_bins == 0) by (nonlinear_arith);
    let g = target_left(ev, hist, hist_base, parent, 0, f, i, backward);
    lemma_one_term(g, |t: int| exact(target_left(ev, hist, hist_base, parent, t, f, i, backward)));
    assert(trials[k].targets[0] == g);
    assert(trials[k].targets@ =~= seq![trials[k].trial.left]);
}

/// With one target, a feature has missing rows in both searches or in neither.
proof fn lemma_same_missing(
    ev: &SplitEvaluatorGpu,
    hist: Seq<GradientPairInt64>,
    hist_base: int,
    parent: Seq<GradientPairInt64>,
    f: int,
)
    requires
        parent.len() == 1,
    ensures
        multi_missing(ev, hist, hist_base, parent, f) == has_missing(
            hist,
            hist_base + ev.cut_ptrs[f],
            width(ev, f),
            parent[0],
        ),
{
    assert(0 * ev.n_bins == 0) by (nonlinear_arith);
    let whole = wrap(run_sum(hist, target_start(ev, hist_base, 0, f), width(ev, f)));
    lemma_one_term(whole, |t: int| exact(wrap(run_sum(hist, target_start(ev, hist_base, t, f), width(ev, f)))));
    lemma_one_term(parent[0], |t: int| exact(parent[t]));
}

/// A bin that holds rows has its forward split listed.
proof fn lemma_forward_listed(hist: Seq<GradientPairInt64>, start: int, ibegin: int, m: int, i: int) -> (j: int)
    requires
        0 <= i < m,
        live(hist[start + i]),
    ensures
        0 <= j < forward_trials(hist, start, ibegin, m).len(),
        forward_trials(hist, start, ibegin, m)[j] == forward_trial(hist, start, ibegin, i),
    decreases m,
{
    if i == m - 1 {
        forward_trials(hist, start, ibegin, m - 1).len() as int
    } else {
        lemma_forward_listed(hist, start, ibegin, m - 1, i)
    }
}

/// A forward split that is listed stands at a bin.
proof fn lemma_forward_bin(hist: Seq<GradientPairInt64>, start: int, ibegin: int, m: int, j: int) -> (i: int)
    requires
        0 <= j < forward_trials(hist, start, ibegin, m).len(),
    ensures
        0 <= i < m,
        forward_trials(hist, start, ibegin, m)[j] == forward_trial(hist, start, ibegin, i),
    decreases m,
{
    if j < forward_trials(hist, start, ibegin, m - 1).len() {
        lemma_forward_bin(hist, start, ibegin, m - 1, j)
    } else {
        m - 1
    }
}

/// A bin that holds rows has its backward split listed.
proof fn lemma_backward_listed(
    hist: Seq<GradientPairInt64>,
    start: int,
    ibegin: int,
    n: int,
    parent: GradientPairInt64,
    m: int,
    i: int,
) -> (j: int)
    requires
        n - m <= i < n,
        live(hist[start + i]),
    ensures
        0 <= j < backward_trials(hist, start, ibegin, n, parent, m).len(),
        backward_trials(hist, start, ibegin, n, parent, m)[j] == backward_trial(hist, start, ibegin, n, parent, i),
    decreases m,
{
    if i == n - m {
        backward_trials(hist, start, ibegin, n, parent, m - 1).len() as int
    } else {
        lemma_backward_listed(hist, start, ibegin, n, parent, m - 1, i)
    }
}

/// A backward split that is listed stands at a bin.
proof fn lemma_backward_bin(
    hist: Seq<GradientPairInt64>,
    start: int,
    ibegin: int,
    n: int,
    parent: GradientPairInt64,
    m: int,
    j: int,
) -> (i: int)
    requires
        0 <= j < backward_trials(hist, start, ibegin, n, parent, m).len(),
    ensures
        n - m <= i < n,
        backward_trials(hist, start, ibegin, n, parent, m)[j] == backward_trial(hist, start, ibegin, n, parent, i),
    decreases m,
{
    if j < backward_trials(hist, start, ibegin, n, parent, m - 1).len() {
        lemma_backward_bin(hist, start, ibegin, n, parent, m - 1, j)
    } else {
        n - m
    }
}

/// A listed split is one of the scan that passes over no bin.
proof fn lemma_is_scanned(
    hist: Seq<GradientPairInt64>,
    start: int,
    ibegin: int,
    n: int,
    parent: GradientPairInt64,
    j: int,
) -> (k: int)
    requires
        0 <= n,
        0 <= j < trials_of(hist, start, ibegin, n, parent).len(),
    ensures
        0 <= k < (if has_missing(hist, start, n, parent) {
            2 * n
        } else {
            n
        }),
        trials_of(hist, start, ibegin, n, parent)[j] == any_trial(hist, start, ibegin, n, parent, k),
{
    let forward = forward_trials(hist, start, ibegin, n);
    if j < forward.len() {
        lemma_forward_bin(hist, start, ibegin, n, j)
    } else {
        2 * n - 1 - lemma_backward_bin(hist, start, ibegin, n, parent, n, j - forward.len())
    }
}

/// A split at a bin that holds rows is listed.
proof fn lemma_is_listed(
    hist: Seq<GradientPairInt64>,
    start: int,
    ibegin: int,
    n: int,
    parent: GradientPairInt64,
    k: int,
) -> (j: int)
    requires
        0 <= k < (if has_missing(hist, start, n, parent) {
            2 * n
        } else {
            n
        }),
        live(hist[start + bin_of_trial(n, k)]),
    ensures
        0 <= j < trials_of(hist, start, ibegin, n, parent).len(),
        trials_of(hist, start, ibegin, n, parent)[j] == any_trial(hist, start, ibegin, n, parent, k),
{
    if k < n {
        lemma_forward_listed(hist, start, ibegin, n, k)
    } else {
        let j = lemma_backward_listed(hist, start, ibegin, n, parent, n, 2 * n - 1 - k);
        forward_trials(hist, start, ibegin, n).len() + j
    }
}

/// A vector leaf of one target chooses the scalar split: where a split is scored by its left
/// sum, and one with nothing on a side gains nothing, both searches of a feature end with the
/// same split and the same gain, or with none.
pub proof fn lemma_one_target(
    ev: &SplitEvaluatorGpu,
    hist: Seq<GradientPairInt64>,
    hist_base: int,
    parent: Seq<GradientPairInt64>,
    f: int,
    score: spec_fn(GradientPairInt64) -> u32,
    vector: Seq<MultiTrial>,
    vector_gains: Seq<u32>,
    v: Option<int>,
    gains: Seq<u32>,
    w: Option<int>,
)
    requires
        ev.wf(),
        0 <= f < ev.n_features,
        parent.len() == 1,
        !lt_spec(0, score(GradientPairInt64 { grad: 0, hess: 0 })),
        !lt_spec(0, score(parent[0])),
        lists_multi(ev, hist, hist_base, parent, f, false, vector),
        vector_gains.len() == vector.len(),
        forall|k: int| 0 <= k < vector.len() ==> #[trigger] vector_gains[k] == score(vector[k].targets[0]),
        wins_trials(shared_trials(vector), vector_gains, v),
        ({
            let trials = trials_of(
                hist,
                hist_base + ev.cut_ptrs[f],
                ev.cut_ptrs[f] as int,
                width(ev, f),
                parent[0],
            );
            &&& gains.len() == trials.len()
            &&& forall|k: int| 0 <= k < gains.len() ==> #[trigger] gains[k] == score(trials[k].left)
            &&& wins_trials(trials, gains, w)
        }),
    ensures
        ({
            let trials = trials_of(
                hist,
                hist_base + ev.cut_ptrs[f],
                ev.cut_ptrs[f] as int,
                width(ev, f),
                parent[0],
            );
            match (v, w) {
                (Some(x), Some(y)) => vector[x].trial == trials[y] && vector_gains[x] == gains[y],
                (None, None) => true,
                _ => false,
            }
        }),
{
    let n = width(ev, f);
    let start = hist_base + ev.cut_ptrs[f];
    let ibegin = ev.cut_ptrs[f] as int;
    let trials = trials_of(hist, start, ibegin, n, parent[0]);
    let shared = shared_trials(vector);
    let m = vector.len() as int;
    let gain_at = |i: int| gains[i];
    let vector_gain_at = |i: int| vector_gains[i];
    assert(ev.cut_ptrs[f] <= ev.cut_ptrs[f + 1]);
    lemma_same_missing(ev, hist, hist_base, parent, f);
    let any_gain = |k: int| score(any_trial(hist, start, ibegin, n, parent[0], k).left);
    assert forall|k: int| 0 <= k < m implies #[trigger] any_gain(k) == vector_gains[k] && shared[k].rank == k
        && shared[k] == any_trial(hist, start, ibegin, n, parent[0], k) by {
        lemma_same_trial(ev, hist, hist_base, parent, f, vector, k);
    }
    match v {
        Some(x) => {
            assert(any_gain(x) == vector_gains[x]);
            assert forall|j: int| 0 <= j < m implies !better_spec(#[trigger] any_gain(j), j, any_gain(x), x) by {
                assert(!better_spec(vector_gain_at(j), shared[j].rank as int, vector_gains[x], shared[x].rank as int));
            }
            assert(is_winner(m, any_gain, |k: int| k, Some(x)));
            lemma_empty_bin_never_wins(hist, start, ibegin, n, parent[0], m, score, x);
            let j = lemma_is_listed(hist, start, ibegin, n, parent[0], x);
            assert(gains[j] == vector_gains[x]);
            match w {
                Some(y) => {
                    let k = lemma_is_scanned(hist, start, ibegin, n, parent[0], y);
                    assert(any_gain(k) == vector_gains[k]);
                    assert(!better_spec(gain_at(j), trials[j].rank as int, gains[y], trials[y].rank as int));
                    assert(!better_spec(any_gain(k), k, any_gain(x), x));
                    assert(trials[y].rank == k && trials[j].rank == x);
                },
                None => {
                    assert(!lt_spec(0, gain_at(j)));
                },
            }
        },
        None => {
            match w {
                Some(y) => {
                    let k = lemma_is_scanned(hist, start, ibegin, n, parent[0], y);
                    assert(any_gain(k) == vector_gains[k]);
                    assert(!lt_spec(0, vector_gain_at(k)));
                },
                None => {},
            }
        },
    }
}

} // verus!
