//! Split evaluation over quantised histograms.
//!
//! A split of a feature sends a run of its bins one way and the rest the other. The child
//! sums are exact 64-bit prefix sums of the histogram, so a search split across units
//! finds what a sequential one would. What a split gains is a floating-point function of
//! its two child sums; it is worked out between [`feature_trials`], which lists the splits
//! worth scoring, and [`choose_trial`], which picks the winner.
//!
//! # Candidate ordering
//!
//! The larger gain wins, and on a tie the candidate that a sequential scan would have seen
//! first. Within a feature that is the lower rank, where rank counts the forward scan's
//! bins first and the backward scan's after them; across features it is the lower feature
//! index. That is a total order, so the winner depends neither on how the candidates were
//! divided nor on the order in which they are compared.

use vstd::prelude::*;

use crate::error::Error;
use crate::float_bits::{lt, lt_spec, rank, same, same_spec};
use crate::gpu::pairs::{
    exact, lemma_total_same, lemma_total_split, lemma_wrap_exact, lemma_wrap_plus, minus, plus, total, wrap,
    PairSum,
};
use crate::gpu::GradientPairInt64;

verus! {

/// One split of a feature that is worth scoring.
#[derive(Clone, Copy, Debug, PartialEq, Eq, Structural)]
pub struct Trial {
    /// Where a sequential scan meets it: the forward scan's bins first, then the backward
    /// scan's.
    pub rank: u32,
    /// Global bin the split stands at.
    pub bin: u32,
    /// Found by the backward scan, so that missing values go left.
    pub backward: bool,
    /// The left child's sum; the right child's is the parent's minus it.
    pub left: GradientPairInt64,
}

/// The sum of the `n` bins from `start` on.
pub open spec fn run_sum(hist: Seq<GradientPairInt64>, start: int, n: int) -> PairSum {
    total(n, |i: int| exact(hist[start + i]))
}

/// Whether a bin holds any row of the node: a row with zero hessian still carries a
/// gradient.
pub open spec fn live(cell: GradientPairInt64) -> bool {
    cell.grad != 0 || cell.hess != 0
}

/// The split after bin `i` of a feature of the node: the bins up to it go left.
pub open spec fn forward_trial(hist: Seq<GradientPairInt64>, start: int, ibegin: int, i: int) -> Trial {
    Trial {
        rank: i as u32,
        bin: (ibegin + i) as u32,
        backward: false,
        left: wrap(run_sum(hist, start, i + 1)),
    }
}

/// The split before bin `i` of a feature of `n` bins: the bins from it on go right.
pub open spec fn backward_trial(
    hist: Seq<GradientPairInt64>,
    start: int,
    ibegin: int,
    n: int,
    parent: GradientPairInt64,
    i: int,
) -> Trial {
    Trial {
        rank: (n + (n - 1 - i)) as u32,
        bin: (ibegin + i) as u32,
        backward: true,
        left: wrap(minus(exact(parent), run_sum(hist, start + i, n - i))),
    }
}

/// The forward splits after the first `m` bins, at the bins that hold rows.
pub open spec fn forward_trials(hist: Seq<GradientPairInt64>, start: int, ibegin: int, m: int) -> Seq<Trial>
    decreases m,
{
    if m <= 0 {
        Seq::empty()
    } else {
        let rest = forward_trials(hist, start, ibegin, m - 1);
        if live(hist[start + m - 1]) {
            rest.push(forward_trial(hist, start, ibegin, m - 1))
        } else {
            rest
        }
    }
}

/// The backward splits before the last `m` of `n` bins, last bin first, at the bins that
/// hold rows.
pub open spec fn backward_trials(
    hist: Seq<GradientPairInt64>,
    start: int,
    ibegin: int,
    n: int,
    parent: GradientPairInt64,
    m: int,
) -> Seq<Trial>
    decreases m,
{
    if m <= 0 {
        Seq::empty()
    } else {
        let rest = backward_trials(hist, start, ibegin, n, parent, m - 1);
        if live(hist[start + n - m]) {
            rest.push(backward_trial(hist, start, ibegin, n, parent, n - m))
        } else {
            rest
        }
    }
}

/// The feature has missing rows in the node exactly when its bins do not account for the
/// node's whole sum.
pub open spec fn has_missing(hist: Seq<GradientPairInt64>, start: int, n: int, parent: GradientPairInt64) -> bool {
    wrap(run_sum(hist, start, n)) != parent
}

/// The splits of one feature of one node that are worth scoring, in the order a sequential
/// scan meets them. `start` is the feature's first bin in `hist`, `ibegin` its global
/// number.
pub open spec fn trials_of(
    hist: Seq<GradientPairInt64>,
    start: int,
    ibegin: int,
    n: int,
    parent: GradientPairInt64,
) -> Seq<Trial> {
    forward_trials(hist, start, ibegin, n) + (if has_missing(hist, start, n, parent) {
        backward_trials(hist, start, ibegin, n, parent, n)
    } else {
        Seq::empty()
    })
}

/// The sum of a feature's last bins is the whole sum without the first ones: a backward
/// scan needs no pass of its own.
pub proof fn lemma_suffix_from_prefix(hist: Seq<GradientPairInt64>, start: int, n: int, i: int)
    requires
        0 <= i <= n,
    ensures
        run_sum(hist, start + i, n - i) == minus(run_sum(hist, start, n), run_sum(hist, start, i)),
{
    let f = |k: int| exact(hist[start + k]);
    lemma_total_split(i, n - i, f);
    lemma_total_same(n - i, |k: int| f(i + k), |k: int| exact(hist[start + i + k]));
}

/// One bin more in front of a run.
pub(crate) proof fn lemma_run_front(hist: Seq<GradientPairInt64>, start: int, n: int)
    requires
        n > 0,
    ensures
        run_sum(hist, start, n) == plus(exact(hist[start]), run_sum(hist, start + 1, n - 1)),
{
    lemma_suffix_from_prefix(hist, start, n, 1);
    assert(run_sum(hist, start, 1) == plus(run_sum(hist, start, 0), exact(hist[start])));
}

/// List the splits of one feature of one node that are worth scoring.
///
/// Both directions are scanned, and the backward one only when the feature has missing
/// rows in the node. A bin without rows adds nothing to the running sums, so its split is
/// its neighbour's at a later rank and can never win; it is not listed. A masked feature
/// has no split.
pub fn feature_trials(
    hist: &[GradientPairInt64],
    hist_base: usize,
    ibegin: u32,
    iend: u32,
    parent: GradientPairInt64,
    masked: bool,
) -> (trials: Vec<Trial>)
    requires
        ibegin <= iend,
        2 * (iend - ibegin) <= u32::MAX,
        hist_base + iend <= hist.len(),
    ensures
        masked ==> trials.len() == 0,
        !masked ==> trials@ == trials_of(
            hist@,
            hist_base + ibegin,
            ibegin as int,
            iend - ibegin,
            parent,
        ),
{
    let mut trials: Vec<Trial> = Vec::new();
    if masked {
        return trials;
    }
    let n: u32 = iend - ibegin;
    let start: usize = hist_base + ibegin as usize;
    let mut acc = GradientPairInt64 { grad: 0, hess: 0 };
    let mut i: u32 = 0;
    while i < n
        invariant
            start == hist_base + ibegin,
            start + n <= hist.len(),
            n == iend - ibegin,
            i <= n,
            acc == wrap(run_sum(hist@, start as int, i as int)),
            trials@ == forward_trials(hist@, start as int, ibegin as int, i as int),
        decreases n - i,
    {
        let cell: GradientPairInt64 = hist[start + i as usize];
        proof {
            lemma_wrap_plus(run_sum(hist@, start as int, i as int), exact(cell));
            assert(run_sum(hist@, start as int, i + 1) == plus(
                run_sum(hist@, start as int, i as int),
                exact(hist[start + i]),
            ));
        }
        acc = acc.wrapping_add(cell);
        if cell.grad != 0 || cell.hess != 0 {
            trials.push(Trial { rank: i, bin: ibegin + i, backward: false, left: acc });
        }
        i += 1;
    }
    let whole: GradientPairInt64 = acc;
    let ghost forward = trials@;
    if whole.grad != parent.grad || whole.hess != parent.hess {
        let mut acc = GradientPairInt64 { grad: 0, hess: 0 };
        let mut step: u32 = 0;
        assert(trials@ =~= forward + backward_trials(hist@, start as int, ibegin as int, n as int, parent, 0));
        while step < n
            invariant
                start == hist_base + ibegin,
                start + n <= hist.len(),
                n == iend - ibegin,
                2 * n <= u32::MAX,
                step <= n,
                acc == wrap(run_sum(hist@, start + (n - step), step as int)),
                trials@ == forward + backward_trials(
                    hist@,
                    start as int,
                    ibegin as int,
                    n as int,
                    parent,
                    step as int,
                ),
            decreases n - step,
        {
            let b: u32 = n - 1 - step;
            let cell: GradientPairInt64 = hist[start + b as usize];
            let ghost was = trials@;
            proof {
                lemma_run_front(hist@, start + b, step + 1);
                lemma_wrap_plus(run_sum(hist@, start + (n - step), step as int), exact(cell));
                assert(plus(exact(cell), run_sum(hist@, start + (n - step), step as int)) == plus(
                    run_sum(hist@, start + (n - step), step as int),
                    exact(cell),
                ));
                let right = run_sum(hist@, start + b, step + 1);
                lemma_wrap_exact(parent);
                lemma_wrap_plus(exact(parent), right);
            }
            acc = acc.wrapping_add(cell);
            if cell.grad != 0 || cell.hess != 0 {
                let left: GradientPairInt64 = parent.wrapping_sub(acc);
                trials.push(Trial { rank: n + step, bin: ibegin + b, backward: true, left });
            }
            step += 1;
            assert(trials@ =~= forward + backward_trials(
                hist@,
                start as int,
                ibegin as int,
                n as int,
                parent,
                step as int,
            ));
        }
    } else {
        assert(trials@ =~= forward + Seq::<Trial>::empty());
    }
    trials
}

// ------------------------------------------------------------- the order ----

/// `(gain, place)` is a better candidate than `(best_gain, best_place)`: a larger gain, or
/// an equal one met earlier.
pub open spec fn better_spec(gain: u32, place: int, best_gain: u32, best_place: int) -> bool {
    lt_spec(best_gain, gain) || (same_spec(gain, best_gain) && place < best_place)
}

/// Is `(gain, place)` a better candidate than `(best_gain, best_place)`?
pub fn better(gain: u32, place: u32, best_gain: u32, best_place: u32) -> (yes: bool)
    ensures
        yes == better_spec(gain, place as int, best_gain, best_place as int),
{
    lt(best_gain, gain) || (same(gain, best_gain) && place < best_place)
}

/// `w` is the winner among `n` candidates: its gain is above zero, and no other candidate
/// is better. `None` where no gain is above zero.
pub open spec fn is_winner(n: int, gain: spec_fn(int) -> u32, place: spec_fn(int) -> int, w: Option<int>) -> bool {
    match w {
        None => forall|j: int| 0 <= j < n ==> !lt_spec(0, #[trigger] gain(j)),
        Some(k) => {
            &&& 0 <= k < n
            &&& lt_spec(0, gain(k))
            &&& forall|j: int| 0 <= j < n ==> !better_spec(#[trigger] gain(j), place(j), gain(k), place(k))
        },
    }
}

/// Candidates at different places have one winner, whatever order they are compared in.
pub proof fn lemma_winner_unique(
    n: int,
    gain: spec_fn(int) -> u32,
    place: spec_fn(int) -> int,
    a: Option<int>,
    b: Option<int>,
)
    requires
        is_winner(n, gain, place, a),
        is_winner(n, gain, place, b),
        forall|i: int, j: int|
            0 <= i < n && 0 <= j < n && #[trigger] place(i) == #[trigger] place(j) ==> i == j,
    ensures
        a == b,
{
    if a is Some && b is Some {
        let i = a->0;
        let j = b->0;
        assert(!better_spec(gain(j), place(j), gain(i), place(i)));
        assert(!better_spec(gain(i), place(i), gain(j), place(j)));
        assert(place(i) == place(j));
    } else if a is Some {
        assert(lt_spec(0, gain(a->0)));
    } else if b is Some {
        assert(lt_spec(0, gain(b->0)));
    }
}

/// Split `k` of a scan that passes over no bin: the forward ones of a feature of `n` bins,
/// then the backward ones.
pub open spec fn any_trial(
    hist: Seq<GradientPairInt64>,
    start: int,
    ibegin: int,
    n: int,
    parent: GradientPairInt64,
    k: int,
) -> Trial {
    if k < n {
        forward_trial(hist, start, ibegin, k)
    } else {
        backward_trial(hist, start, ibegin, n, parent, 2 * n - 1 - k)
    }
}

/// The bin, counted from the feature's first, that split `k` of such a scan stands at.
pub open spec fn bin_of_trial(n: int, k: int) -> int {
    if k < n {
        k
    } else {
        2 * n - 1 - k
    }
}

/// A bin without rows never wins: where every split of a feature is scored by its left sum,
/// and a split with nothing on one side gains nothing, the winner of the whole scan stands
/// at a bin that holds rows. So passing over the others changes no winner. `m` is how many
/// splits are scanned: the forward ones, or all.
pub proof fn lemma_empty_bin_never_wins(
    hist: Seq<GradientPairInt64>,
    start: int,
    ibegin: int,
    n: int,
    parent: GradientPairInt64,
    m: int,
    score: spec_fn(GradientPairInt64) -> u32,
    w: int,
)
    requires
        m == n || m == 2 * n,
        !lt_spec(0, score(GradientPairInt64 { grad: 0, hess: 0 })),
        !lt_spec(0, score(parent)),
        is_winner(
            m,
            |k: int| score(any_trial(hist, start, ibegin, n, parent, k).left),
            |k: int| k,
            Some(w),
        ),
    ensures
        live(hist[start + bin_of_trial(n, w)]),
{
    let gain = |k: int| score(any_trial(hist, start, ibegin, n, parent, k).left);
    if !live(hist[start + bin_of_trial(n, w)]) {
        if w < n {
            assert(run_sum(hist, start, w + 1) == plus(run_sum(hist, start, w), exact(hist[start + w])));
            if w == 0 {
                assert(run_sum(hist, start, 0) == run_sum(hist, start, 1));
                lemma_wrap_exact(GradientPairInt64 { grad: 0, hess: 0 });
                assert(any_trial(hist, start, ibegin, n, parent, 0).left == GradientPairInt64 { grad: 0, hess: 0 });
            } else {
                assert(gain(w) == gain(w - 1));
                assert(better_spec(gain(w - 1), w - 1, gain(w), w));
            }
        } else {
            let i = 2 * n - 1 - w;
            lemma_run_front(hist, start + i, n - i);
            if i == n - 1 {
                assert(run_sum(hist, start + i + 1, 0) == run_sum(hist, start + i, 1));
                lemma_wrap_exact(parent);
                assert(any_trial(hist, start, ibegin, n, parent, w).left == parent);
            } else {
                assert(run_sum(hist, start + i, n - i) == run_sum(hist, start + (i + 1), n - (i + 1)));
                assert(gain(w) == gain(w - 1));
                assert(better_spec(gain(w - 1), w - 1, gain(w), w));
            }
        }
    }
}

/// `w` is the winner among the trials of a feature, from their gains.
pub open spec fn wins_trials(trials: Seq<Trial>, gains: Seq<u32>, w: Option<int>) -> bool {
    is_winner(trials.len() as int, |j: int| gains[j], |j: int| trials[j].rank as int, w)
}

/// `w` is the winner among a node's per-feature candidates.
pub open spec fn wins_features(candidates: Seq<DeviceSplitCandidate>, w: Option<int>) -> bool {
    is_winner(candidates.len() as int, |j: int| candidates[j].loss_chg, |j: int| j, w)
}

/// The winner among the splits of a feature, `None` where none gains anything.
///
/// `gains` holds the gain of each trial over the parent, as a bit pattern; zero or less
/// marks a split that is not valid.
pub fn choose_trial(trials: &[Trial], gains: &[u32]) -> (winner: Option<usize>)
    requires
        gains.len() == trials.len(),
    ensures
        wins_trials(
            trials@,
            gains@,
            match winner {
                Some(k) => Some(k as int),
                None => None,
            },
        ),
        winner matches Some(k) ==> k < gains.len() && lt_spec(0, gains[k as int]) && forall|j: int|
            0 <= j < gains.len() ==> !lt_spec(gains[k as int], #[trigger] gains[j]),
        winner matches Some(k) ==> forall|j: int|
            0 <= j < gains.len() && same_spec(#[trigger] gains[j], gains[k as int]) ==> trials[k as int].rank
                <= trials[j].rank,
        winner is None ==> forall|j: int| 0 <= j < gains.len() ==> !lt_spec(0, #[trigger] gains[j]),
{
    let mut winner: Option<usize> = None;
    let mut best_gain: u32 = 0;
    let mut best_rank: u32 = 0;
    let mut k: usize = 0;
    while k < trials.len()
        invariant
            gains.len() == trials.len(),
            k <= trials.len(),
            match winner {
                None => best_gain == 0 && best_rank == 0 && forall|j: int|
                    0 <= j < k ==> !lt_spec(0, #[trigger] gains[j]),
                Some(w) => w < k && best_gain == gains[w as int] && best_rank == trials[w as int].rank && lt_spec(
                    0,
                    best_gain,
                ) && forall|j: int|
                    0 <= j < k ==> !better_spec(
                        #[trigger] gains[j],
                        trials[j].rank as int,
                        best_gain,
                        best_rank as int,
                    ),
            },
        decreases trials.len() - k,
    {
        if better(gains[k], trials[k].rank, best_gain, best_rank) {
            winner = Some(k);
            best_gain = gains[k];
            best_rank = trials[k].rank;
        }
        k += 1;
    }
    winner
}

// ------------------------------------------------------------ candidates ----

/// One node's chosen split.
///
/// Child sums stay quantised, so that they are decoded with the same factors the histogram
/// was quantised with.
#[derive(Clone, Copy, Debug, PartialEq, Eq, Structural)]
pub struct DeviceSplitCandidate {
    /// The gain over the parent, as a bit pattern.
    pub loss_chg: u32,
    /// Feature index with the default-left flag in bit 31.
    pub sindex: u32,
    /// The threshold, as a bit pattern.
    pub split_value: u32,
    /// Quantised left-child sum; the right child is the parent minus this.
    pub left_grad: i64,
    pub left_hess: i64,
    /// Whether this split names a set of categories rather than a threshold.
    pub is_cat: bool,
}

/// The flag in bit 31.
pub const DEFAULT_LEFT_BIT: u32 = 0x8000_0000;

impl Default for DeviceSplitCandidate {
    /// No split: nothing gained.
    fn default() -> (none: Self)
        ensures
            none == (DeviceSplitCandidate {
                loss_chg: 0,
                sindex: 0,
                split_value: 0,
                left_grad: 0,
                left_hess: 0,
                is_cat: false,
            }),
    {
        DeviceSplitCandidate { loss_chg: 0, sindex: 0, split_value: 0, left_grad: 0, left_hess: 0, is_cat: false }
    }
}

impl DeviceSplitCandidate {
    pub open spec fn feature(&self) -> u32 {
        (self.sindex % DEFAULT_LEFT_BIT) as u32
    }

    pub open spec fn missing_left(&self) -> bool {
        self.sindex >= DEFAULT_LEFT_BIT
    }

    pub fn split_index(&self) -> (fidx: u32)
        ensures
            fidx == self.feature(),
    {
        self.sindex % DEFAULT_LEFT_BIT
    }

    pub fn default_left(&self) -> (left: bool)
        ensures
            left == self.missing_left(),
    {
        self.sindex >= DEFAULT_LEFT_BIT
    }
}

/// A feature index with the default-left flag in bit 31.
pub fn tag_index(fidx: u32, default_left: bool) -> (sindex: u32)
    requires
        fidx < DEFAULT_LEFT_BIT,
    ensures
        sindex == fidx + (if default_left {
            DEFAULT_LEFT_BIT as int
        } else {
            0
        }),
{
    if default_left {
        fidx + DEFAULT_LEFT_BIT
    } else {
        fidx
    }
}

/// The feature index and the flag can be told apart again.
pub proof fn lemma_tag_round_trip(c: DeviceSplitCandidate, fidx: u32, default_left: bool)
    requires
        fidx < DEFAULT_LEFT_BIT,
        c.sindex == fidx + (if default_left {
            DEFAULT_LEFT_BIT as int
        } else {
            0
        }),
    ensures
        c.feature() == fidx,
        c.missing_left() == default_left,
{
}

/// Everything the split search needs that does not change between nodes; numbers are bit
/// patterns.
#[derive(Clone, Debug)]
pub struct SplitConfig {
    pub lambda: u32,
    pub alpha: u32,
    pub max_delta_step: u32,
    pub min_child_weight: u32,
    /// `-1`, `0` or `+1` per feature; all-zero means unconstrained.
    pub monotone: Vec<i32>,
}

/// Some feature is constrained.
pub open spec fn constrained(monotone: Seq<i32>) -> bool {
    exists|f: int| 0 <= f < monotone.len() && #[trigger] monotone[f] != 0
}

fn any_constraint(monotone: &Vec<i32>) -> (yes: bool)
    ensures
        yes == constrained(monotone@),
{
    let mut f: usize = 0;
    while f < monotone.len()
        invariant
            f <= monotone.len(),
            forall|k: int| 0 <= k < f ==> #[trigger] monotone[k] == 0,
        decreases monotone.len() - f,
    {
        if monotone[f] != 0 {
            return true;
        }
        f += 1;
    }
    false
}

impl SplitConfig {
    pub fn has_constraint(&self) -> (yes: bool)
        ensures
            yes == constrained(self.monotone@),
            !yes <==> forall|f: int| 0 <= f < self.monotone.len() ==> #[trigger] self.monotone[f] == 0,
    {
        any_constraint(&self.monotone)
    }
}

/// Per-node inputs: the parent sums, its gain, and its monotone weight box.
#[derive(Clone, Copy, Debug, PartialEq, Eq, Structural)]
pub struct NodeInput {
    /// Offset of this node's histogram, in bins.
    pub hist_base: u32,
    pub parent_grad: i64,
    pub parent_hess: i64,
    pub root_gain: u32,
    pub lower: u32,
    pub upper: u32,
}

/// Split evaluator: holds the cut layout, answers any number of node batches.
pub struct SplitEvaluatorGpu {
    pub cut_ptrs: Vec<u32>,
    pub cut_values: Vec<u32>,
    pub min_values: Vec<u32>,
    /// One entry per feature.
    pub monotone: Vec<i32>,
    pub n_features: usize,
    pub n_bins: usize,
    pub has_constraint: bool,
    pub cfg: SplitConfig,
}

impl SplitEvaluatorGpu {
    /// The cut layout belongs together.
    pub open spec fn wf(&self) -> bool {
        &&& self.cut_ptrs.len() == self.n_features + 1
        &&& self.n_features < DEFAULT_LEFT_BIT
        &&& self.cut_values.len() == self.n_bins
        &&& self.min_values.len() == self.n_features
        &&& self.monotone.len() == self.n_features
        &&& 0 < self.n_bins < DEFAULT_LEFT_BIT
        &&& forall|f: int|
            0 <= f < self.n_features ==> #[trigger] self.cut_ptrs[f] <= self.cut_ptrs[f + 1]
                && self.cut_ptrs[f + 1] <= self.n_bins
    }

    /// `cut_ptrs` has one entry per feature and one more; `cut_values` one per bin.
    pub fn new(float64: bool, cut_ptrs: &[u32], cut_values: &[u32], min_values: &[u32], cfg: SplitConfig) -> (result: Result<
        Self,
        Error,
    >)
        requires
            cut_ptrs.len() > 0,
        ensures
            result is Ok <==> float64,
            result matches Err(e) ==> e == Error::NoF64Support,
            result matches Ok(ev) ==> {
                &&& ev.cut_ptrs@ == cut_ptrs@
                &&& ev.cut_values@ == cut_values@
                &&& ev.min_values@ == min_values@
                &&& ev.n_features == cut_ptrs.len() - 1
                &&& ev.n_bins == cut_values.len()
                &&& ev.cfg == cfg
                &&& ev.monotone.len() == ev.n_features
                &&& forall|f: int|
                    0 <= f < ev.n_features ==> #[trigger] ev.monotone[f] == (if f < cfg.monotone.len() {
                        cfg.monotone[f]
                    } else {
                        0
                    })
                &&& ev.has_constraint == constrained(ev.monotone@)
            },
    {
        if !float64 {
            return Err(Error::NoF64Support);
        }
        let n_features: usize = cut_ptrs.len() - 1;
        let mut monotone: Vec<i32> = Vec::with_capacity(n_features);
        let mut f: usize = 0;
        while f < n_features
            invariant
                f <= n_features,
                monotone.len() == f,
                forall|k: int|
                    0 <= k < f ==> #[trigger] monotone[k] == (if k < cfg.monotone.len() {
                        cfg.monotone[k]
                    } else {
                        0
                    }),
            decreases n_features - f,
        {
            let c: i32 = if f < cfg.monotone.len() {
                cfg.monotone[f]
            } else {
                0
            };
            monotone.push(c);
            f += 1;
        }
        let has_constraint: bool = any_constraint(&monotone);
        let mut ptrs: Vec<u32> = Vec::with_capacity(cut_ptrs.len());
        ptrs.extend_from_slice(cut_ptrs);
        let mut values: Vec<u32> = Vec::with_capacity(cut_values.len());
        values.extend_from_slice(cut_values);
        let mut mins: Vec<u32> = Vec::with_capacity(min_values.len());
        mins.extend_from_slice(min_values);
        assert(ptrs@ =~= cut_ptrs@);
        assert(values@ =~= cut_values@);
        assert(mins@ =~= min_values@);
        Ok(
            SplitEvaluatorGpu {
                cut_ptrs: ptrs,
                cut_values: values,
                min_values: mins,
                monotone,
                n_features,
                n_bins: cut_values.len(),
                has_constraint,
                cfg,
            },
        )
    }

    pub fn n_features(&self) -> (n: usize)
        ensures
            n == self.n_features,
    {
        self.n_features
    }

    /// The threshold of a split of feature `fidx` at `bin`: the bin's own cut, or for a
    /// split found backwards the cut before the bin, which is the feature's minimum when
    /// the bin is its first.
    pub open spec fn threshold_spec(&self, fidx: int, bin: int, backward: bool) -> u32 {
        if !backward {
            self.cut_values[bin]
        } else if bin == self.cut_ptrs[fidx] {
            self.min_values[fidx]
        } else {
            self.cut_values[bin - 1]
        }
    }

    pub(crate) fn threshold(&self, fidx: usize, bin: u32, backward: bool) -> (value: u32)
        requires
            self.wf(),
            fidx < self.n_features,
            bin < self.n_bins,
            backward ==> self.cut_ptrs[fidx as int] <= bin,
        ensures
            value == self.threshold_spec(fidx as int, bin as int, backward),
    {
        if !backward {
            self.cut_values[bin as usize]
        } else if bin == self.cut_ptrs[fidx] {
            self.min_values[fidx]
        } else {
            self.cut_values[bin as usize - 1]
        }
    }

    /// The splits of feature `fidx` of one node that are worth scoring.
    pub open spec fn trials_spec(
        &self,
        hist: Seq<GradientPairInt64>,
        node: NodeInput,
        fidx: int,
        masked: bool,
    ) -> Seq<Trial> {
        if masked {
            Seq::empty()
        } else {
            trials_of(
                hist,
                node.hist_base + self.cut_ptrs[fidx],
                self.cut_ptrs[fidx] as int,
                self.cut_ptrs[fidx + 1] - self.cut_ptrs[fidx],
                GradientPairInt64 { grad: node.parent_grad, hess: node.parent_hess },
            )
        }
    }

    /// List the splits of feature `fidx` of one node that are worth scoring.
    pub fn trials(&self, hist: &[GradientPairInt64], node: &NodeInput, fidx: usize, masked: bool) -> (trials: Vec<
        Trial,
    >)
        requires
            self.wf(),
            fidx < self.n_features,
            node.hist_base + self.n_bins <= hist.len(),
        ensures
            trials@ == self.trials_spec(hist@, *node, fidx as int, masked),
            masked ==> trials.len() == 0,
            forall|k: int|
                0 <= k < trials.len() ==> self.cut_ptrs[fidx as int] <= (#[trigger] trials[k]).bin
                    < self.cut_ptrs[fidx + 1],
    {
        assert(self.cut_ptrs[fidx as int] <= self.cut_ptrs[fidx + 1]);
        let trials: Vec<Trial> = feature_trials(
            hist,
            node.hist_base as usize,
            self.cut_ptrs[fidx],
            self.cut_ptrs[fidx + 1],
            GradientPairInt64 { grad: node.parent_grad, hess: node.parent_hess },
            masked,
        );
        proof {
            if !masked {
                let start = node.hist_base + self.cut_ptrs[fidx as int];
                let n = self.cut_ptrs[fidx + 1] - self.cut_ptrs[fidx as int];
                lemma_trial_bins(
                    hist@,
                    start,
                    self.cut_ptrs[fidx as int] as int,
                    n,
                    GradientPairInt64 { grad: node.parent_grad, hess: node.parent_hess },
                    n,
                );
            } else {
                assert(trials@ =~= Seq::<Trial>::empty());
            }
        }
        trials
    }

    /// The candidate that the gains of a feature's trials make: the winner's split, or no
    /// gain at all.
    pub open spec fn candidate_spec(&self, fidx: int, trials: Seq<Trial>, gains: Seq<u32>, c: DeviceSplitCandidate) -> bool {
        exists|w: Option<int>|
            #[trigger] wins_trials(trials, gains, w) && (match w {
                None => c == (DeviceSplitCandidate {
                    loss_chg: 0,
                    sindex: fidx as u32,
                    split_value: self.cut_values[0],
                    left_grad: 0,
                    left_hess: 0,
                    is_cat: false,
                }),
                Some(k) => c == (DeviceSplitCandidate {
                    loss_chg: gains[k],
                    sindex: (fidx + (if trials[k].backward {
                        DEFAULT_LEFT_BIT as int
                    } else {
                        0
                    })) as u32,
                    split_value: self.threshold_spec(fidx, trials[k].bin as int, trials[k].backward),
                    left_grad: trials[k].left.grad,
                    left_hess: trials[k].left.hess,
                    is_cat: false,
                }),
            })
    }

    /// The best split of feature `fidx` of a node, from the gains of its trials.
    pub fn evaluate_feature_kernel(&self, fidx: usize, trials: &[Trial], gains: &[u32]) -> (candidate: DeviceSplitCandidate)
        requires
            self.wf(),
            fidx < self.n_features,
            gains.len() == trials.len(),
            forall|k: int|
                0 <= k < trials.len() ==> self.cut_ptrs[fidx as int] <= (#[trigger] trials[k]).bin
                    < self.cut_ptrs[fidx + 1],
        ensures
            self.candidate_spec(fidx as int, trials@, gains@, candidate),
    {
        let winner: Option<usize> = choose_trial(trials, gains);
        assert(self.cut_ptrs[fidx as int] <= self.cut_ptrs[fidx + 1]);
        let ghost w: Option<int> = match winner {
            Some(k) => Some(k as int),
            None => None,
        };
        assert(wins_trials(trials@, gains@, w));
        match winner {
            None => DeviceSplitCandidate {
                loss_chg: 0,
                sindex: fidx as u32,
                split_value: self.cut_values[0],
                left_grad: 0,
                left_hess: 0,
                is_cat: false,
            },
            Some(k) => {
                let trial: Trial = trials[k];
                DeviceSplitCandidate {
                    loss_chg: gains[k],
                    sindex: tag_index(fidx as u32, trial.backward),
                    split_value: self.threshold(fidx, trial.bin, trial.backward),
                    left_grad: trial.left.grad,
                    left_hess: trial.left.hess,
                    is_cat: false,
                }
            },
        }
    }

    /// Reduce a node's per-feature candidates to one: the largest gain, the lower feature
    /// on a tie, and no split where none gains anything.
    pub fn reduce_candidates(&self, candidates: &[DeviceSplitCandidate]) -> (best: DeviceSplitCandidate)
        requires
            candidates.len() <= u32::MAX,
        ensures
            exists|w: Option<int>|
                #[trigger] wins_features(candidates@, w) && best == (
                match w {
                    None => (DeviceSplitCandidate {
                        loss_chg: 0,
                        sindex: 0,
                        split_value: 0,
                        left_grad: 0,
                        left_hess: 0,
                        is_cat: false,
                    }),
                    Some(k) => (DeviceSplitCandidate { is_cat: false, ..candidates[k] }),
                }),
            forall|j: int| 0 <= j < candidates.len() ==> !lt_spec(best.loss_chg, (#[trigger] candidates[j]).loss_chg),
    {
        let mut best: DeviceSplitCandidate = DeviceSplitCandidate::default();
        let mut best_rank: u32 = 0;
        let ghost mut w: Option<int> = None;
        let mut f: usize = 0;
        while f < candidates.len()
            invariant
                candidates.len() <= u32::MAX,
                f <= candidates.len(),
                match w {
                    None => best_rank == 0 && best == (DeviceSplitCandidate {
                        loss_chg: 0,
                        sindex: 0,
                        split_value: 0,
                        left_grad: 0,
                        left_hess: 0,
                        is_cat: false,
                    }) && forall|j: int| 0 <= j < f ==> !lt_spec(0, (#[trigger] candidates[j]).loss_chg),
                    Some(k) => 0 <= k < f && best_rank == k && best == (DeviceSplitCandidate {
                        is_cat: false,
                        ..candidates[k]
                    }) && lt_spec(0, best.loss_chg) && forall|j: int|
                        0 <= j < f ==> !better_spec(
                            (#[trigger] candidates[j]).loss_chg,
                            j,
                            best.loss_chg,
                            best_rank as int,
                        ),
                },
            decreases candidates.len() - f,
        {
            let c: DeviceSplitCandidate = candidates[f];
            if better(c.loss_chg, f as u32, best.loss_chg, best_rank) {
                best = DeviceSplitCandidate {
                    loss_chg: c.loss_chg,
                    sindex: c.sindex,
                    split_value: c.split_value,
                    left_grad: c.left_grad,
                    left_hess: c.left_hess,
                    is_cat: false,
                };
                best_rank = f as u32;
                proof {
                    w = Some(f as int);
                }
            }
            f += 1;
        }
        assert(wins_features(candidates@, w));
        best
    }
}

impl SplitEvaluatorGpu {
    /// The splits worth scoring of every feature of every node of a batch, feature by
    /// feature within a node.
    ///
    /// `feature_mask` holds a flag per node and feature, zero for a feature the node may
    /// not split on.
    pub fn batch_trials(&self, hist: &[GradientPairInt64], nodes: &[NodeInput], feature_mask: &[u32]) -> (batch: Vec<
        Vec<Trial>,
    >)
        requires
            self.wf(),
            nodes.len() * self.n_features <= usize::MAX,
            feature_mask.len() == nodes.len() * self.n_features,
            forall|i: int| 0 <= i < nodes.len() ==> (#[trigger] nodes[i]).hist_base + self.n_bins <= hist.len(),
        ensures
            batch.len() == nodes.len() * self.n_features,
            forall|i: int, f: int|
                0 <= i < nodes.len() && 0 <= f < self.n_features ==> {
                    let at = #[trigger] pair_index(i, self.n_features as int, f);
                    &&& 0 <= at < batch.len()
                    &&& batch[at]@ == self.trials_spec(hist@, nodes[i], f, feature_mask[at] == 0)
                    &&& self.at_own_bins(f, batch[at]@)
                },
    {
        let mut batch: Vec<Vec<Trial>> = Vec::with_capacity(nodes.len() * self.n_features);
        let mut i: usize = 0;
        assert(0 * self.n_features == 0) by (nonlinear_arith);
        while i < nodes.len()
            invariant
                self.wf(),
                nodes.len() * self.n_features <= usize::MAX,
                feature_mask.len() == nodes.len() * self.n_features,
                forall|k: int| 0 <= k < nodes.len() ==> (#[trigger] nodes[k]).hist_base + self.n_bins <= hist.len(),
                i <= nodes.len(),
                batch.len() == i * self.n_features,
                forall|k: int, f: int|
                    0 <= k < i && 0 <= f < self.n_features ==> {
                        let at = #[trigger] pair_index(k, self.n_features as int, f);
                        &&& 0 <= at < batch.len()
                        &&& batch[at]@ == self.trials_spec(hist@, nodes[k], f, feature_mask[at] == 0)
                        &&& self.at_own_bins(f, batch[at]@)
                    },
            decreases nodes.len() - i,
        {
            let mut f: usize = 0;
            proof {
                lemma_pair_index(i as int, self.n_features as int, nodes.len() as int);
            }
            while f < self.n_features
                invariant
                    self.wf(),
                    nodes.len() * self.n_features <= usize::MAX,
                    feature_mask.len() == nodes.len() * self.n_features,
                    i < nodes.len(),
                    i * self.n_features + self.n_features <= nodes.len() * self.n_features,
                    nodes[i as int].hist_base + self.n_bins <= hist.len(),
                    f <= self.n_features,
                    batch.len() == i * self.n_features + f,
                    forall|k: int, g: int|
                        0 <= k < i && 0 <= g < self.n_features ==> {
                            let at = #[trigger] pair_index(k, self.n_features as int, g);
                            &&& 0 <= at < batch.len()
                            &&& batch[at]@ == self.trials_spec(hist@, nodes[k], g, feature_mask[at] == 0)
                            &&& self.at_own_bins(g, batch[at]@)
                        },
                    forall|g: int|
                        0 <= g < f ==> {
                            let at = #[trigger] pair_index(i as int, self.n_features as int, g);
                            &&& 0 <= at < batch.len()
                            &&& batch[at]@ == self.trials_spec(
                                hist@,
                                nodes[i as int],
                                g,
                                feature_mask[at] == 0,
                            )
                            &&& self.at_own_bins(g, batch[at]@)
                        },
                decreases self.n_features - f,
            {
                let masked: bool = feature_mask[i * self.n_features + f] == 0;
                let trials: Vec<Trial> = self.trials(hist, &nodes[i], f, masked);
                batch.push(trials);
                f += 1;
            }
            proof {
                assert((i + 1) * self.n_features == i * self.n_features + self.n_features) by (nonlinear_arith);
            }
            i += 1;
        }
        batch
    }

    /// Every trial stands at a bin of feature `f`.
    pub open spec fn at_own_bins(&self, f: int, trials: Seq<Trial>) -> bool {
        forall|k: int| 0 <= k < trials.len() ==> self.cut_ptrs[f] <= (#[trigger] trials[k]).bin < self.cut_ptrs[f + 1]
    }

    /// `best` is the best split of node `i`: the best of its features' best.
    pub open spec fn best_of_node(
        &self,
        i: int,
        batch: Seq<Vec<Trial>>,
        gains: Seq<Vec<u32>>,
        best: DeviceSplitCandidate,
    ) -> bool {
        exists|candidates: Seq<DeviceSplitCandidate>, w: Option<int>|
            {
                &&& candidates.len() == self.n_features
                &&& forall|f: int|
                    0 <= f < self.n_features ==> self.candidate_spec(
                        f,
                        batch[pair_index(i, self.n_features as int, f)]@,
                        gains[pair_index(i, self.n_features as int, f)]@,
                        #[trigger] candidates[f],
                    )
                &&& #[trigger] wins_features(candidates, w)
                &&& best == (match w {
                    None => (DeviceSplitCandidate {
                        loss_chg: 0,
                        sindex: 0,
                        split_value: 0,
                        left_grad: 0,
                        left_hess: 0,
                        is_cat: false,
                    }),
                    Some(k) => (DeviceSplitCandidate { is_cat: false, ..candidates[k] }),
                })
            }
    }

    /// The best split of every node of a batch, from the gains of [`Self::batch_trials`].
    pub fn evaluate(&self, n_nodes: usize, batch: &[Vec<Trial>], gains: &[Vec<u32>]) -> (bests: Vec<DeviceSplitCandidate>)
        requires
            self.wf(),
            batch.len() == n_nodes * self.n_features,
            gains.len() == batch.len(),
            forall|k: int| 0 <= k < batch.len() ==> (#[trigger] batch[k]).len() == gains[k].len(),
            forall|i: int, f: int|
                0 <= i < n_nodes && 0 <= f < self.n_features ==> self.at_own_bins(
                    f,
                    batch[#[trigger] pair_index(i, self.n_features as int, f)]@,
                ),
        ensures
            bests.len() == n_nodes,
            forall|i: int| 0 <= i < n_nodes ==> self.best_of_node(i, batch@, gains@, #[trigger] bests[i]),
    {
        let mut bests: Vec<DeviceSplitCandidate> = Vec::with_capacity(n_nodes);
        let mut i: usize = 0;
        while i < n_nodes
            invariant
                self.wf(),
                batch.len() == n_nodes * self.n_features,
                gains.len() == batch.len(),
                forall|k: int| 0 <= k < batch.len() ==> (#[trigger] batch[k]).len() == gains[k].len(),
                forall|k: int, f: int|
                    0 <= k < n_nodes && 0 <= f < self.n_features ==> self.at_own_bins(
                        f,
                        batch[#[trigger] pair_index(k, self.n_features as int, f)]@,
                    ),
                i <= n_nodes,
                bests.len() == i,
                forall|k: int| 0 <= k < i ==> self.best_of_node(k, batch@, gains@, #[trigger] bests[k]),
            decreases n_nodes - i,
        {
            proof {
                lemma_pair_index(i as int, self.n_features as int, n_nodes as int);
            }
            let mut candidates: Vec<DeviceSplitCandidate> = Vec::with_capacity(self.n_features);
            let mut f: usize = 0;
            while f < self.n_features
                invariant
                    self.wf(),
                    batch.len() == n_nodes * self.n_features,
                    gains.len() == batch.len(),
                    i < n_nodes,
                    0 <= i * self.n_features,
                    i * self.n_features + self.n_features <= n_nodes * self.n_features,
                    forall|k: int| 0 <= k < batch.len() ==> (#[trigger] batch[k]).len() == gains[k].len(),
                    forall|k: int, f: int|
                        0 <= k < n_nodes && 0 <= f < self.n_features ==> self.at_own_bins(
                            f,
                            batch[#[trigger] pair_index(k, self.n_features as int, f)]@,
                        ),
                    f <= self.n_features,
                    candidates.len() == f,
                    forall|g: int|
                        0 <= g < f ==> self.candidate_spec(
                            g,
                            batch[pair_index(i as int, self.n_features as int, g)]@,
                            gains[pair_index(i as int, self.n_features as int, g)]@,
                            #[trigger] candidates[g],
                        ),
                decreases self.n_features - f,
            {
                let at: usize = i * self.n_features + f;
                assert(at == pair_index(i as int, self.n_features as int, f as int));
                assert(self.at_own_bins(f as int, batch[at as int]@));
                let c: DeviceSplitCandidate = self.evaluate_feature_kernel(f, batch[at].as_slice(), gains[at].as_slice());
                candidates.push(c);
                f += 1;
            }
            let best: DeviceSplitCandidate = self.reduce_candidates(candidates.as_slice());
            bests.push(best);
            i += 1;
        }
        bests
    }
}

/// Where feature `f` of node `i` stands in a batch.
pub open spec fn pair_index(i: int, n_features: int, f: int) -> int {
    i * n_features + f
}

pub(crate) proof fn lemma_pair_index(i: int, n_features: int, n: int)
    requires
        0 <= i < n,
        0 <= n_features,
    ensures
        0 <= i * n_features,
        i * n_features + n_features <= n * n_features,
{
    assert(0 <= i * n_features && i * n_features + n_features <= n * n_features) by (nonlinear_arith)
        requires
            0 <= i,
            i + 1 <= n,
            0 <= n_features,
    ;
}

/// The trials of a feature stand at its own bins.
proof fn lemma_trial_bins(
    hist: Seq<GradientPairInt64>,
    start: int,
    ibegin: int,
    n: int,
    parent: GradientPairInt64,
    m: int,
)
    requires
        0 <= m <= n,
        0 <= ibegin,
        ibegin + n <= u32::MAX,
    ensures
        forall|k: int|
            0 <= k < forward_trials(hist, start, ibegin, m).len() ==> ibegin <= (#[trigger] forward_trials(
                hist,
                start,
                ibegin,
                m,
            )[k]).bin < ibegin + n,
        forall|k: int|
            0 <= k < backward_trials(hist, start, ibegin, n, parent, m).len() ==> ibegin <= (
            #[trigger] backward_trials(hist, start, ibegin, n, parent, m)[k]).bin < ibegin + n,
    decreases m,
{
    if m > 0 {
        lemma_trial_bins(hist, start, ibegin, n, parent, m - 1);
        let fw = forward_trials(hist, start, ibegin, m - 1);
        let bw = backward_trials(hist, start, ibegin, n, parent, m - 1);
        let forward = forward_trials(hist, start, ibegin, m);
        let backward = backward_trials(hist, start, ibegin, n, parent, m);
        assert forall|k: int| 0 <= k < forward.len() implies ibegin <= (#[trigger] forward[k]).bin < ibegin + n by {
            if k < fw.len() {
                assert(forward[k] == fw[k]);
            }
        }
        assert forall|k: int| 0 <= k < backward.len() implies ibegin <= (#[trigger] backward[k]).bin < ibegin + n by {
            if k < bw.len() {
                assert(backward[k] == bw[k]);
            }
        }
    }
}

/// Words per node of the packed winners.
pub const SPLIT_WORDS: usize = 5;

/// Read the winner of one node from its five packed words:
/// `[sindex, left_grad, left_hess, gain bits, value bits]`.
pub fn unpack_winner(words: &[i64], node: usize) -> (candidate: DeviceSplitCandidate)
    requires
        (node + 1) * SPLIT_WORDS <= words.len(),
        0 <= words[node * SPLIT_WORDS] <= u32::MAX,
        0 <= words[node * SPLIT_WORDS + 3] <= u32::MAX,
        0 <= words[node * SPLIT_WORDS + 4] <= u32::MAX,
    ensures
        candidate == (DeviceSplitCandidate {
            loss_chg: words[node * SPLIT_WORDS + 3] as u32,
            sindex: words[node * SPLIT_WORDS] as u32,
            split_value: words[node * SPLIT_WORDS + 4] as u32,
            left_grad: words[node * SPLIT_WORDS + 1],
            left_hess: words[node * SPLIT_WORDS + 2],
            is_cat: false,
        }),
{
    let at: usize = node * SPLIT_WORDS;
    DeviceSplitCandidate {
        sindex: words[at] as u32,
        left_grad: words[at + 1],
        left_hess: words[at + 2],
        loss_chg: words[at + 3] as u32,
        split_value: words[at + 4] as u32,
        is_cat: false,
    }
}

/// One bin more adds what it holds, gradient to gradient and hessian to hessian; no bins make
/// nothing.
pub proof fn lemma_run_grows(hist: Seq<GradientPairInt64>, start: int, n: int)
    requires
        n >= 0,
    ensures
        run_sum(hist, start, 0).grad == 0 && run_sum(hist, start, 0).hess == 0,
        run_sum(hist, start, n + 1).grad == run_sum(hist, start, n).grad + hist[start + n].grad,
        run_sum(hist, start, n + 1).hess == run_sum(hist, start, n).hess + hist[start + n].hess,
{
}

/// A larger gain is better wherever it stands, and of equal gains the one met earlier; nothing is
/// better than itself, and what is better than a better one is better.
pub proof fn lemma_better(a: u32, p: int, b: u32, q: int, c: u32, r: int)
    ensures
        lt_spec(b, a) ==> better_spec(a, p, b, q) && !better_spec(b, q, a, p),
        same_spec(a, b) ==> (better_spec(a, p, b, q) <==> p < q),
        !better_spec(a, p, a, p),
        better_spec(a, p, b, q) && better_spec(b, q, c, r) ==> better_spec(a, p, c, r),
        better_spec(a, p, b, q) ==> rank(a) >= rank(b),
{
}

/// The winner gains as much as any other candidate, and of those that gain as much it is the one
/// met first; there is none exactly where nothing is gained.
pub proof fn lemma_winner_gains_most(
    n: int,
    gain: spec_fn(int) -> u32,
    place: spec_fn(int) -> int,
    w: Option<int>,
    j: int,
)
    requires
        is_winner(n, gain, place, w),
        0 <= j < n,
        !crate::float_bits::is_nan_spec(gain(j)),
    ensures
        w is None ==> rank(gain(j)) <= 0,
        w matches Some(k) ==> 0 <= k < n && rank(gain(k)) > 0 && rank(gain(j)) <= rank(gain(k)) && (rank(gain(j))
            == rank(gain(k)) ==> place(k) <= place(j)),
{
    if let Some(k) = w {
        assert(!better_spec(gain(j), place(j), gain(k), place(k)));
    }
}

/// Every split that is scored stands at a bin of the feature that holds rows. One found forwards
/// puts the bins up to its own on the left; one found backwards is met only where rows are missing,
/// and puts the bins from its own on on the right.
pub proof fn lemma_trials_mean(
    hist: Seq<GradientPairInt64>,
    start: int,
    ibegin: int,
    n: int,
    parent: GradientPairInt64,
    k: int,
)
    requires
        0 <= ibegin,
        0 <= n,
        ibegin + n <= u32::MAX,
        2 * n <= u32::MAX,
        0 <= k < trials_of(hist, start, ibegin, n, parent).len(),
    ensures
        ({
            let t = trials_of(hist, start, ibegin, n, parent)[k];
            let i = t.bin - ibegin;
            &&& 0 <= i < n
            &&& hist[start + i].grad != 0 || hist[start + i].hess != 0
            &&& !t.backward ==> t.rank == i && t.left == wrap(run_sum(hist, start, i + 1))
            &&& t.backward ==> {
                &&& t.rank == 2 * n - 1 - i
                &&& wrap(run_sum(hist, start, n)) != parent
                &&& t.left == wrap(minus(exact(parent), run_sum(hist, start + i, n - i)))
            }
        }),
{
    lemma_trials_upto(hist, start, ibegin, n, parent, n);
    let forward = forward_trials(hist, start, ibegin, n);
    let backward = backward_trials(hist, start, ibegin, n, parent, n);
    let all = trials_of(hist, start, ibegin, n, parent);
    if k < forward.len() {
        assert(all[k] == forward[k]);
    } else {
        assert(all[k] == backward[k - forward.len()]);
    }
}

/// Every bin of the feature that holds rows is tried: forwards always, and backwards too where rows
/// are missing.
pub proof fn lemma_trials_complete(
    hist: Seq<GradientPairInt64>,
    start: int,
    ibegin: int,
    n: int,
    parent: GradientPairInt64,
    i: int,
)
    requires
        0 <= i < n,
        hist[start + i].grad != 0 || hist[start + i].hess != 0,
    ensures
        trials_of(hist, start, ibegin, n, parent).contains(forward_trial(hist, start, ibegin, i)),
        wrap(run_sum(hist, start, n)) != parent ==> trials_of(hist, start, ibegin, n, parent).contains(
            backward_trial(hist, start, ibegin, n, parent, i),
        ),
{
    let forward = forward_trials(hist, start, ibegin, n);
    let backward = backward_trials(hist, start, ibegin, n, parent, n);
    let all = trials_of(hist, start, ibegin, n, parent);
    lemma_trials_reach(hist, start, ibegin, n, parent, i, n);
    let a = choose|a: int| 0 <= a < forward.len() && forward[a] == forward_trial(hist, start, ibegin, i);
    assert(all[a] == forward[a]);
    if wrap(run_sum(hist, start, n)) != parent {
        let b = choose|b: int|
            0 <= b < backward.len() && backward[b] == backward_trial(hist, start, ibegin, n, parent, i);
        assert(all[forward.len() + b] == backward[b]);
    }
}

proof fn lemma_trials_reach(
    hist: Seq<GradientPairInt64>,
    start: int,
    ibegin: int,
    n: int,
    parent: GradientPairInt64,
    i: int,
    m: int,
)
    requires
        0 <= i < n,
        0 <= m <= n,
        live(hist[start + i]),
    ensures
        i < m ==> forward_trials(hist, start, ibegin, m).contains(forward_trial(hist, start, ibegin, i)),
        n - m <= i ==> backward_trials(hist, start, ibegin, n, parent, m).contains(
            backward_trial(hist, start, ibegin, n, parent, i),
        ),
    decreases m,
{
    if m > 0 {
        lemma_trials_reach(hist, start, ibegin, n, parent, i, m - 1);
        let fw = forward_trials(hist, start, ibegin, m - 1);
        let bw = backward_trials(hist, start, ibegin, n, parent, m - 1);
        let forward = forward_trials(hist, start, ibegin, m);
        let backward = backward_trials(hist, start, ibegin, n, parent, m);
        let ft = forward_trial(hist, start, ibegin, i);
        let bt = backward_trial(hist, start, ibegin, n, parent, i);
        if i < m - 1 {
            let a = choose|a: int| 0 <= a < fw.len() && fw[a] == ft;
            assert(forward[a] == ft);
        } else if i == m - 1 {
            assert(forward[fw.len() as int] == ft);
        }
        if n - m < i {
            let b = choose|b: int| 0 <= b < bw.len() && bw[b] == bt;
            assert(backward[b] == bt);
        } else if i == n - m {
            assert(backward[bw.len() as int] == bt);
        }
    }
}

proof fn lemma_trials_upto(
    hist: Seq<GradientPairInt64>,
    start: int,
    ibegin: int,
    n: int,
    parent: GradientPairInt64,
    m: int,
)
    requires
        0 <= m <= n,
        0 <= ibegin,
        ibegin + n <= u32::MAX,
        2 * n <= u32::MAX,
    ensures
        forall|k: int|
            0 <= k < forward_trials(hist, start, ibegin, m).len() ==> {
                let t = #[trigger] forward_trials(hist, start, ibegin, m)[k];
                let i = t.bin - ibegin;
                0 <= i < n && live(hist[start + i]) && t == forward_trial(hist, start, ibegin, i)
            },
        forall|k: int|
            0 <= k < backward_trials(hist, start, ibegin, n, parent, m).len() ==> {
                let t = #[trigger] backward_trials(hist, start, ibegin, n, parent, m)[k];
                let i = t.bin - ibegin;
                0 <= i < n && live(hist[start + i]) && t == backward_trial(hist, start, ibegin, n, parent, i)
            },
    decreases m,
{
    if m > 0 {
        lemma_trials_upto(hist, start, ibegin, n, parent, m - 1);
        let fw = forward_trials(hist, start, ibegin, m - 1);
        let bw = backward_trials(hist, start, ibegin, n, parent, m - 1);
        let forward = forward_trials(hist, start, ibegin, m);
        let backward = backward_trials(hist, start, ibegin, n, parent, m);
        assert forall|k: int| 0 <= k < forward.len() implies ({
            let t = #[trigger] forward[k];
            let i = t.bin - ibegin;
            0 <= i < n && live(hist[start + i]) && t == forward_trial(hist, start, ibegin, i)
        }) by {
            if k < fw.len() {
                assert(forward[k] == fw[k]);
            }
        }
        assert forall|k: int| 0 <= k < backward.len() implies ({
            let t = #[trigger] backward[k];
            let i = t.bin - ibegin;
            0 <= i < n && live(hist[start + i]) && t == backward_trial(hist, start, ibegin, n, parent, i)
        }) by {
            if k < bw.len() {
                assert(backward[k] == bw[k]);
            }
        }
    }
}

/// A feature's candidate gains as much as any of its splits. Where that is something, it names the
/// feature and is one of the splits: missing values go left exactly where it was found backwards,
/// the left child's sum is the split's, and the threshold is the cut that closes the last bin on the
/// left.
pub proof fn lemma_candidate(
    ev: SplitEvaluatorGpu,
    fidx: int,
    trials: Seq<Trial>,
    gains: Seq<u32>,
    c: DeviceSplitCandidate,
    j: int,
)
    requires
        ev.candidate_spec(fidx, trials, gains, c),
        0 <= fidx < DEFAULT_LEFT_BIT,
        0 <= j < trials.len(),
    ensures
        c.feature() == fidx,
        !c.is_cat,
        !lt_spec(c.loss_chg, gains[j]),
        lt_spec(0, gains[j]) ==> lt_spec(0, c.loss_chg),
        lt_spec(0, c.loss_chg) ==> exists|k: int|
            {
                let t = #[trigger] trials[k];
                &&& 0 <= k < trials.len()
                &&& c.loss_chg == gains[k]
                &&& c.missing_left() == t.backward
                &&& c.left_grad == t.left.grad && c.left_hess == t.left.hess
                &&& !t.backward ==> c.split_value == ev.cut_values[t.bin as int]
                &&& t.backward && t.bin != ev.cut_ptrs[fidx] ==> c.split_value == ev.cut_values[t.bin - 1]
                &&& t.backward && t.bin == ev.cut_ptrs[fidx] ==> c.split_value == ev.min_values[fidx]
            },
{
    let w = choose|w: Option<int>|
        #[trigger] wins_trials(trials, gains, w) && (match w {
            None => c == (DeviceSplitCandidate {
                loss_chg: 0,
                sindex: fidx as u32,
                split_value: ev.cut_values[0],
                left_grad: 0,
                left_hess: 0,
                is_cat: false,
            }),
            Some(k) => c == (DeviceSplitCandidate {
                loss_chg: gains[k],
                sindex: (fidx + (if trials[k].backward {
                    DEFAULT_LEFT_BIT as int
                } else {
                    0
                })) as u32,
                split_value: ev.threshold_spec(fidx, trials[k].bin as int, trials[k].backward),
                left_grad: trials[k].left.grad,
                left_hess: trials[k].left.hess,
                is_cat: false,
            }),
        });
    let gain_at = |i: int| gains[i];
    let place_at = |i: int| trials[i].rank as int;
    assert(is_winner(trials.len() as int, gain_at, place_at, w));
    assert(gain_at(j) == gains[j]);
    if let Some(k) = w {
        assert(!better_spec(gain_at(j), place_at(j), gain_at(k), place_at(k)));
        let t = trials[k];
        assert(c.loss_chg == gains[k]);
    }
}

/// A node's best split gains as much as any split of any of its features, and none is reported
/// exactly where none gains anything.
pub proof fn lemma_best_of_node(
    ev: SplitEvaluatorGpu,
    i: int,
    batch: Seq<Vec<Trial>>,
    gains: Seq<Vec<u32>>,
    best: DeviceSplitCandidate,
    f: int,
    j: int,
)
    requires
        ev.best_of_node(i, batch, gains, best),
        ev.n_features < DEFAULT_LEFT_BIT,
        0 <= f < ev.n_features,
        0 <= j < batch[i * ev.n_features + f].len(),
    ensures
        !lt_spec(best.loss_chg, gains[i * ev.n_features + f][j]),
        lt_spec(0, gains[i * ev.n_features + f][j]) ==> lt_spec(0, best.loss_chg),
        lt_spec(0, best.loss_chg) ==> best.feature() < ev.n_features,
{
    let n = ev.n_features as int;
    let (candidates, w) = choose|candidates: Seq<DeviceSplitCandidate>, w: Option<int>|
        {
            &&& candidates.len() == n
            &&& forall|f: int|
                0 <= f < n ==> ev.candidate_spec(
                    f,
                    batch[pair_index(i, n, f)]@,
                    gains[pair_index(i, n, f)]@,
                    #[trigger] candidates[f],
                )
            &&& #[trigger] wins_features(candidates, w)
            &&& best == (match w {
                None => (DeviceSplitCandidate {
                    loss_chg: 0,
                    sindex: 0,
                    split_value: 0,
                    left_grad: 0,
                    left_hess: 0,
                    is_cat: false,
                }),
                Some(k) => (DeviceSplitCandidate { is_cat: false, ..candidates[k] }),
            })
        };
    lemma_candidate(ev, f, batch[pair_index(i, n, f)]@, gains[pair_index(i, n, f)]@, candidates[f], j);
    let gain_at = |k: int| candidates[k].loss_chg;
    let place_at = |k: int| k;
    assert(is_winner(n, gain_at, place_at, w));
    assert(gain_at(f) == candidates[f].loss_chg);
    if let Some(k) = w {
        assert(!better_spec(gain_at(f), place_at(f), gain_at(k), place_at(k)));
        assert(ev.candidate_spec(k, batch[pair_index(i, n, k)]@, gains[pair_index(i, n, k)]@, candidates[k]));
        let c = candidates[k];
        assert(c.feature() == k);
    }
}

/// The features of a node stand together, in their order, and the nodes follow one another.
pub proof fn lemma_pairs_follow(i: int, n_features: int, f: int)
    ensures
        pair_index(0, n_features, 0) == 0,
        pair_index(i, n_features, f + 1) == pair_index(i, n_features, f) + 1,
        pair_index(i + 1, n_features, 0) == pair_index(i, n_features, n_features),
{
    assert((i + 1) * n_features == i * n_features + n_features) by (nonlinear_arith);
    assert(0 * n_features == 0) by (nonlinear_arith);
}

/// What is tried of a feature of a node: nothing where the node may not split on it, and otherwise
/// splits at the feature's own bins, each with the sum of the node's rows that go left.
pub proof fn lemma_feature_tried(
    ev: SplitEvaluatorGpu,
    hist: Seq<GradientPairInt64>,
    node: NodeInput,
    fidx: int,
    k: int,
)
    requires
        ev.wf(),
        0 <= fidx < ev.n_features,
    ensures
        ev.trials_spec(hist, node, fidx, true).len() == 0,
        0 <= k < ev.trials_spec(hist, node, fidx, false).len() ==> {
            let t = ev.trials_spec(hist, node, fidx, false)[k];
            let first = ev.cut_ptrs[fidx] as int;
            let start = node.hist_base + first;
            let n = ev.cut_ptrs[fidx + 1] - first;
            let parent = GradientPairInt64 { grad: node.parent_grad, hess: node.parent_hess };
            &&& first <= t.bin < ev.cut_ptrs[fidx + 1]
            &&& !t.backward ==> t.left == wrap(run_sum(hist, start, t.bin - first + 1))
            &&& t.backward ==> t.left == wrap(
                minus(exact(parent), run_sum(hist, node.hist_base + t.bin, ev.cut_ptrs[fidx + 1] - t.bin)),
            ) && wrap(run_sum(hist, start, n)) != parent
        },
{
    let first = ev.cut_ptrs[fidx] as int;
    let start = node.hist_base + first;
    assert(ev.cut_ptrs[fidx] <= ev.cut_ptrs[fidx + 1]);
    let n = ev.cut_ptrs[fidx + 1] - first;
    let parent = GradientPairInt64 { grad: node.parent_grad, hess: node.parent_hess };
    if 0 <= k < ev.trials_spec(hist, node, fidx, false).len() {
        lemma_trials_mean(hist, start, first, n, parent, k);
        let t = trials_of(hist, start, first, n, parent)[k];
        assert(start + (t.bin - first) == node.hist_base + t.bin);
    }
}

} // verus!
