//! Categorical splits.
//!
//! A category code carries no order, so the features that hold codes are scored here rather
//! than by a scan of their bins. The running sums stay in the histogram's quantised
//! representation; what a split gains is worked out between [`plan_trials`], which lists the
//! splits worth scoring, and [`enumerate`], which picks the winner.

use vstd::prelude::*;

use crate::data::cuts::{category, category_spec, float_key, key_spec};
use crate::data::radix::{radix_order, sorts};
use crate::float_bits::{is_nan_spec, le_spec, lemma_lt_step, lt, lt_spec, magnitude, rank, INF_BITS, SIGN_BIT};
use crate::gpu::evaluate_splits::{tag_index, DeviceSplitCandidate, DEFAULT_LEFT_BIT};
use crate::gpu::pairs::{exact, lemma_wrap_exact, lemma_wrap_plus, minus, plus, total, wrap, PairSum};
use crate::gpu::GradientPairInt64;
use crate::tree::cat::{empty_set, holds_category, set_bit};
use crate::tree::param::TrainParam;

verus! {

/// The bits of a quiet NaN.
pub const NAN_BITS: u32 = 0x7FC0_0000;

/// The number is neither infinite nor NaN.
pub open spec fn is_finite(bits: u32) -> bool {
    magnitude(bits) < INF_BITS
}

fn finite(bits: u32) -> (yes: bool)
    ensures
        yes == is_finite(bits),
{
    if bits < SIGN_BIT {
        bits < INF_BITS
    } else {
        bits - SIGN_BIT < INF_BITS
    }
}

/// A categorical candidate, quantised like the numeric ones.
#[derive(Clone, Copy, Debug, PartialEq, Eq, Structural)]
pub struct CatCandidate {
    pub loss_chg: u32,
    /// The chosen category, or a NaN where a set of them was chosen.
    pub split_value: u32,
    pub default_left: bool,
    pub left: GradientPairInt64,
}

impl Default for CatCandidate {
    /// No split: nothing gained.
    fn default() -> (none: Self)
        ensures
            none == (CatCandidate {
                loss_chg: 0,
                split_value: 0,
                default_left: false,
                left: GradientPairInt64 { grad: 0, hess: 0 },
            }),
    {
        CatCandidate {
            loss_chg: 0,
            split_value: 0,
            default_left: false,
            left: GradientPairInt64 { grad: 0, hess: 0 },
        }
    }
}

/// Whether a categorical candidate replaces the best one so far: a strictly larger gain
/// wins, and a tie keeps the lower feature index.
pub fn replaces(gain: u32, fidx: u32, best_gain: u32, best_fidx: u32) -> (yes: bool)
    ensures
        yes == replaces_spec(gain, fidx, best_gain, best_fidx),
{
    if !finite(gain) {
        return false;
    }
    if best_fidx <= fidx {
        lt(best_gain, gain)
    } else {
        !lt(gain, best_gain)
    }
}

/// One categorical split that is worth scoring.
#[derive(Clone, Copy, Debug, PartialEq, Eq, Structural)]
pub struct CatTrial {
    pub left: GradientPairInt64,
    pub right: GradientPairInt64,
    /// Missing values go left.
    pub default_left: bool,
    /// One category at a time: the one that goes right. A set of them: how many of the
    /// order's categories, from its head, go right.
    pub choice: usize,
}

/// What a trial gains: the gain itself, and what is left of it over the parent's.
#[derive(Clone, Copy, Debug, PartialEq, Eq, Structural)]
pub struct Score {
    pub gain: u32,
    pub loss_chg: u32,
}

/// The sum of all bins.
pub open spec fn bins_sum(bins: Seq<GradientPairInt64>) -> PairSum {
    total(bins.len() as int, |i: int| exact(bins[i]))
}

/// The sum of the bins that the first `p` entries of `order` name.
pub open spec fn head_sum(bins: Seq<GradientPairInt64>, order: Seq<usize>, p: int) -> PairSum {
    total(p, |i: int| exact(bins[order[i] as int]))
}

/// The sum of the bins that the last `q` entries of `order` name.
pub open spec fn tail_sum(bins: Seq<GradientPairInt64>, order: Seq<usize>, q: int) -> PairSum {
    total(q, |i: int| exact(bins[order[order.len() - 1 - i] as int]))
}

/// Category `i` alone goes right, and the missing values left.
pub open spec fn alone(bins: Seq<GradientPairInt64>, parent: GradientPairInt64, i: int) -> CatTrial {
    CatTrial {
        left: wrap(minus(exact(parent), exact(bins[i]))),
        right: bins[i],
        default_left: true,
        choice: i as usize,
    }
}

/// Category `i` goes right together with the missing values: what the other categories hold
/// stays left.
pub open spec fn alone_with_missing(bins: Seq<GradientPairInt64>, parent: GradientPairInt64, i: int) -> CatTrial {
    let others = minus(bins_sum(bins), exact(bins[i]));
    CatTrial {
        left: wrap(others),
        right: wrap(minus(exact(parent), others)),
        default_left: false,
        choice: i as usize,
    }
}

/// The first `p` categories of the order go right, and the missing values left.
pub open spec fn head_right(
    bins: Seq<GradientPairInt64>,
    order: Seq<usize>,
    parent: GradientPairInt64,
    p: int,
) -> CatTrial {
    CatTrial {
        left: wrap(minus(exact(parent), head_sum(bins, order, p))),
        right: wrap(head_sum(bins, order, p)),
        default_left: true,
        choice: p as usize,
    }
}

/// The last `q` categories of the order go left, and the missing values right.
pub open spec fn tail_left(
    bins: Seq<GradientPairInt64>,
    order: Seq<usize>,
    parent: GradientPairInt64,
    q: int,
) -> CatTrial {
    CatTrial {
        left: wrap(tail_sum(bins, order, q)),
        right: wrap(minus(exact(parent), tail_sum(bins, order, q))),
        default_left: false,
        choice: (order.len() - q) as usize,
    }
}

/// The splits of one categorical feature.
#[derive(Clone, Debug)]
pub struct CatPlan {
    /// One category is tried at a time, rather than a set of them.
    pub one_hot: bool,
    /// The categories by the weight their gradients imply.
    pub order: Vec<usize>,
    pub trials: Vec<CatTrial>,
}

/// How many categories of the order one side may name.
pub open spec fn side_limit(n: int, max_cat_threshold: u32) -> int {
    if max_cat_threshold < n {
        max_cat_threshold as int
    } else {
        n
    }
}

impl CatPlan {
    /// The plan lists the splits of a feature with these bins, of a node with this sum.
    pub open spec fn lists(
        &self,
        param: &TrainParam,
        bins: Seq<GradientPairInt64>,
        weights: Seq<u32>,
        parent: GradientPairInt64,
    ) -> bool {
        let n = bins.len() as int;
        let m = side_limit(n, param.max_cat_threshold);
        &&& self.one_hot == (n < param.max_cat_to_onehot)
        &&& sorts(Seq::new(weights.len(), |i: int| key_spec(weights[i])), self.order@)
        &&& if self.one_hot {
            &&& self.trials.len() == 2 * n
            &&& forall|x: int|
                0 <= x < 2 * n ==> #[trigger] self.trials[x] == (if x % 2 == 0 {
                    alone(bins, parent, x / 2)
                } else {
                    alone_with_missing(bins, parent, x / 2)
                })
        } else if m < 2 {
            self.trials.len() == 0
        } else {
            &&& self.trials.len() == 2 * (m - 1)
            &&& forall|x: int|
                0 <= x < 2 * (m - 1) ==> #[trigger] self.trials[x] == (if x < m - 1 {
                    head_right(bins, self.order@, parent, x + 1)
                } else {
                    tail_left(bins, self.order@, parent, x - (m - 1) + 1)
                })
        }
    }
}

fn bins_total(bins: &[GradientPairInt64]) -> (sum: GradientPairInt64)
    ensures
        sum == wrap(bins_sum(bins@)),
{
    let mut sum = GradientPairInt64 { grad: 0, hess: 0 };
    let ghost f = |i: int| exact(bins[i]);
    let mut i: usize = 0;
    proof {
        lemma_wrap_exact(sum);
    }
    while i < bins.len()
        invariant
            i <= bins.len(),
            f == (|i: int| exact(bins[i])),
            sum == wrap(total(i as int, f)),
        decreases bins.len() - i,
    {
        sum = sum.wrapping_add(bins[i]);
        proof {
            lemma_wrap_plus(total(i as int, f), exact(bins[i as int]));
        }
        i += 1;
    }
    sum
}

/// The missing rows are the parent minus the feature's sum, so with a category they are the
/// parent minus the other categories.
proof fn lemma_with_missing(parent: GradientPairInt64, sum: PairSum, cell: GradientPairInt64)
    ensures
        ({
            let p = exact(parent);
            let others = minus(sum, exact(cell));
            let missing = wrap(minus(p, exact(wrap(sum))));
            let right = wrap(plus(exact(cell), exact(missing)));
            right == wrap(minus(p, others)) && wrap(minus(p, exact(right))) == wrap(others)
        }),
{
    let p = exact(parent);
    let b = exact(cell);
    let others = minus(sum, b);
    let missing = wrap(minus(p, exact(wrap(sum))));
    let right = wrap(plus(b, exact(missing)));
    lemma_wrap_exact(parent);
    lemma_wrap_plus(p, sum);
    assert(missing == wrap(minus(p, sum)));
    lemma_wrap_plus(minus(p, sum), b);
    assert(plus(b, exact(missing)) == plus(exact(missing), b));
    assert(plus(minus(p, sum), b) == minus(p, others));
    lemma_wrap_plus(p, minus(p, others));
    assert(minus(p, minus(p, others)) == others);
}

/// Each category on its own against all the others, first with the missing values on the
/// other side and then on its own.
fn one_hot_trials(bins: &[GradientPairInt64], parent: GradientPairInt64) -> (trials: Vec<CatTrial>)
    requires
        2 * bins.len() <= usize::MAX,
    ensures
        trials.len() == 2 * bins.len(),
        forall|x: int|
            0 <= x < 2 * bins.len() ==> #[trigger] trials[x] == (if x % 2 == 0 {
                alone(bins@, parent, x / 2)
            } else {
                alone_with_missing(bins@, parent, x / 2)
            }),
{
    let sum: GradientPairInt64 = bins_total(bins);
    // Rows whose value is missing: whatever the feature's bins do not hold.
    let missing: GradientPairInt64 = parent.wrapping_sub(sum);
    let mut trials: Vec<CatTrial> = Vec::with_capacity(2 * bins.len());
    let mut i: usize = 0;
    while i < bins.len()
        invariant
            2 * bins.len() <= usize::MAX,
            sum == wrap(bins_sum(bins@)),
            missing == wrap(minus(exact(parent), exact(sum))),
            i <= bins.len(),
            trials.len() == 2 * i,
            forall|x: int|
                0 <= x < 2 * i ==> #[trigger] trials[x] == (if x % 2 == 0 {
                    alone(bins@, parent, x / 2)
                } else {
                    alone_with_missing(bins@, parent, x / 2)
                }),
        decreases bins.len() - i,
    {
        let right0: GradientPairInt64 = bins[i];
        let left0: GradientPairInt64 = parent.wrapping_sub(right0);
        trials.push(CatTrial { left: left0, right: right0, default_left: true, choice: i });
        let right1: GradientPairInt64 = right0.wrapping_add(missing);
        let left1: GradientPairInt64 = parent.wrapping_sub(right1);
        trials.push(CatTrial { left: left1, right: right1, default_left: false, choice: i });
        proof {
            lemma_with_missing(parent, bins_sum(bins@), right0);
        }
        i += 1;
    }
    trials
}

/// The categories in an order, split like an ordinary numeric feature: from the head of the
/// order first and from its tail after.
fn partition_trials(
    bins: &[GradientPairInt64],
    order: &Vec<usize>,
    parent: GradientPairInt64,
    max_cat_threshold: u32,
) -> (trials: Vec<CatTrial>)
    requires
        order.len() == bins.len(),
        forall|i: int| 0 <= i < order.len() ==> #[trigger] order[i] < bins.len(),
        2 * bins.len() <= usize::MAX,
    ensures
        ({
            let m = side_limit(bins.len() as int, max_cat_threshold);
            if m < 2 {
                trials.len() == 0
            } else {
                &&& trials.len() == 2 * (m - 1)
                &&& forall|x: int|
                    0 <= x < 2 * (m - 1) ==> #[trigger] trials[x] == (if x < m - 1 {
                        head_right(bins@, order@, parent, x + 1)
                    } else {
                        tail_left(bins@, order@, parent, x - (m - 1) + 1)
                    })
            }
        }),
{
    let n: usize = bins.len();
    let m: usize = if (max_cat_threshold as usize) < n {
        max_cat_threshold as usize
    } else {
        n
    };
    let mut trials: Vec<CatTrial> = Vec::new();
    if m < 2 {
        return trials;
    }
    let ghost f = |i: int| exact(bins[order[i] as int]);
    let ghost g = |i: int| exact(bins[order[order.len() - 1 - i] as int]);
    let mut right = GradientPairInt64 { grad: 0, hess: 0 };
    proof {
        lemma_wrap_exact(right);
    }
    let mut step: usize = 0;
    while step < m - 1
        invariant
            n == bins.len(),
            2 <= m <= n,
            order.len() == n,
            forall|i: int| 0 <= i < order.len() ==> #[trigger] order[i] < bins.len(),
            f == (|i: int| exact(bins[order[i] as int])),
            step <= m - 1,
            right == wrap(total(step as int, f)),
            trials.len() == step,
            forall|x: int| 0 <= x < step ==> #[trigger] trials[x] == head_right(bins@, order@, parent, x + 1),
        decreases m - 1 - step,
    {
        let ghost was = total(step as int, f);
        // Scanning up the order, the accumulated head goes right and the missing rows stay
        // left.
        right = right.wrapping_add(bins[order[step]]);
        let left: GradientPairInt64 = parent.wrapping_sub(right);
        proof {
            lemma_wrap_plus(was, exact(bins[order[step as int] as int]));
            lemma_wrap_exact(parent);
            lemma_wrap_plus(exact(parent), total(step + 1, f));
        }
        trials.push(CatTrial { left, right, default_left: true, choice: step + 1 });
        step += 1;
    }
    let mut left = GradientPairInt64 { grad: 0, hess: 0 };
    let mut step: usize = 0;
    while step < m - 1
        invariant
            n == bins.len(),
            2 <= m <= n,
            order.len() == n,
            forall|i: int| 0 <= i < order.len() ==> #[trigger] order[i] < bins.len(),
            g == (|i: int| exact(bins[order[order.len() - 1 - i] as int])),
            step <= m - 1,
            left == wrap(total(step as int, g)),
            trials.len() == m - 1 + step,
            forall|x: int| 0 <= x < m - 1 ==> #[trigger] trials[x] == head_right(bins@, order@, parent, x + 1),
            forall|x: int|
                m - 1 <= x < m - 1 + step ==> #[trigger] trials[x] == tail_left(
                    bins@,
                    order@,
                    parent,
                    x - (m - 1) + 1,
                ),
        decreases m - 1 - step,
    {
        let ghost was = total(step as int, g);
        left = left.wrapping_add(bins[order[n - 1 - step]]);
        let right: GradientPairInt64 = parent.wrapping_sub(left);
        proof {
            lemma_wrap_plus(was, exact(bins[order[n - 1 - step] as int]));
            lemma_wrap_exact(parent);
            lemma_wrap_plus(exact(parent), total(step + 1, g));
        }
        trials.push(CatTrial { left, right, default_left: false, choice: n - 1 - step });
        step += 1;
    }
    trials
}

/// The splits of a categorical feature that are worth scoring: one category at a time where
/// there are few of them, else runs of the order by weight.
///
/// `weights` are the weights the bins' gradients imply. Sorting by weight is what makes a
/// contiguous run of the order an optimal set of categories.
pub fn plan_trials(
    param: &TrainParam,
    bins: &[GradientPairInt64],
    weights: &[u32],
    parent: GradientPairInt64,
) -> (plan: CatPlan)
    requires
        weights.len() == bins.len(),
        bins.len() <= u32::MAX,
        2 * bins.len() <= usize::MAX,
    ensures
        plan.lists(param, bins@, weights@, parent),
{
    let mut keys: Vec<u32> = Vec::with_capacity(weights.len());
    let mut i: usize = 0;
    while i < weights.len()
        invariant
            i <= weights.len(),
            keys.len() == i,
            forall|k: int| 0 <= k < i ==> #[trigger] keys[k] == key_spec(weights[k]),
        decreases weights.len() - i,
    {
        keys.push(float_key(weights[i]));
        i += 1;
    }
    assert(keys@ =~= Seq::new(weights@.len(), |i: int| key_spec(weights[i])));
    let order: Vec<usize> = radix_order(keys.as_slice());
    if (bins.len() as u32) < param.max_cat_to_onehot {
        CatPlan { one_hot: true, trials: one_hot_trials(bins, parent), order }
    } else {
        CatPlan {
            one_hot: false,
            trials: partition_trials(bins, &order, parent, param.max_cat_threshold),
            order,
        }
    }
}

/// Trial `i` wins: a finite gain that is an improvement, none larger, and none as large
/// before it.
pub open spec fn wins(scores: Seq<Score>, i: int) -> bool {
    &&& 0 <= i < scores.len()
    &&& is_finite(scores[i].gain)
    &&& lt_spec(0, scores[i].loss_chg)
    &&& forall|j: int|
        0 <= j < scores.len() && is_finite((#[trigger] scores[j]).gain) ==> !lt_spec(
            scores[i].loss_chg,
            scores[j].loss_chg,
        )
    &&& forall|j: int|
        0 <= j < i && is_finite((#[trigger] scores[j]).gain) ==> !le_spec(scores[i].loss_chg, scores[j].loss_chg)
}

/// There is one winner at most.
pub proof fn lemma_one_winner(scores: Seq<Score>, i: int, j: int)
    requires
        wins(scores, i),
        wins(scores, j),
    ensures
        i == j,
{
    if i < j {
        assert(!le_spec(scores[j].loss_chg, scores[i].loss_chg));
        assert(!lt_spec(scores[i].loss_chg, scores[j].loss_chg));
    } else if j < i {
        assert(!le_spec(scores[i].loss_chg, scores[j].loss_chg));
        assert(!lt_spec(scores[j].loss_chg, scores[i].loss_chg));
    }
}

fn best_trial(scores: &[Score]) -> (best: Option<usize>)
    ensures
        best matches Some(i) ==> wins(scores@, i as int),
        best is None ==> forall|j: int|
            0 <= j < scores.len() && is_finite((#[trigger] scores[j]).gain) ==> !lt_spec(0, scores[j].loss_chg),
{
    let mut best: Option<usize> = None;
    let mut chg: u32 = 0;
    let mut i: usize = 0;
    while i < scores.len()
        invariant
            i <= scores.len(),
            best is None ==> chg == 0 && forall|j: int|
                0 <= j < i && is_finite((#[trigger] scores[j]).gain) ==> !lt_spec(0, scores[j].loss_chg),
            best matches Some(b) ==> b < i && wins(scores@.subrange(0, i as int), b as int) && chg
                == scores[b as int].loss_chg,
        decreases scores.len() - i,
    {
        let ghost head = scores@.subrange(0, i as int);
        let ghost next = scores@.subrange(0, i + 1);
        let ghost was = best;
        let ghost prev = chg;
        if finite(scores[i].gain) && lt(chg, scores[i].loss_chg) {
            best = Some(i);
            chg = scores[i].loss_chg;
            proof {
                assert forall|j: int| 0 <= j < next.len() && is_finite((#[trigger] next[j]).gain) implies !lt_spec(
                    next[i as int].loss_chg,
                    next[j].loss_chg,
                ) && (j < i ==> !le_spec(next[i as int].loss_chg, next[j].loss_chg)) by {
                    assert(next[j] == scores[j]);
                    if j < i {
                        if was is Some {
                            assert(head[j] == scores[j]);
                            assert(head[was->0 as int] == scores[was->0 as int]);
                            assert(!lt_spec(prev, scores[j].loss_chg));
                        } else {
                            assert(!lt_spec(0, scores[j].loss_chg));
                        }
                        lemma_lt_step(prev, scores[i as int].loss_chg, scores[j].loss_chg);
                    }
                }
                if was is Some {
                    let b = was->0 as int;
                    assert(head[b] == scores[b]);
                    assert(lt_spec(0, scores[b].loss_chg));
                }
                assert(lt_spec(0, scores[i as int].loss_chg));
                assert(wins(next, i as int));
            }
        } else {
            proof {
                if best is Some {
                    let b = best->0 as int;
                    assert(head[b] == scores[b] && next[b] == scores[b]);
                    assert forall|j: int| 0 <= j < next.len() && is_finite((#[trigger] next[j]).gain) implies !lt_spec(
                        next[b].loss_chg,
                        next[j].loss_chg,
                    ) by {
                        assert(next[j] == scores[j]);
                        if j < i {
                            assert(head[j] == scores[j]);
                        }
                    }
                    assert forall|j: int| 0 <= j < b && is_finite((#[trigger] next[j]).gain) implies !le_spec(
                        next[b].loss_chg,
                        next[j].loss_chg,
                    ) by {
                        assert(head[j] == scores[j]);
                    }
                    assert(wins(next, b));
                }
            }
        }
        i += 1;
    }
    assert(scores@.subrange(0, scores.len() as int) =~= scores@);
    best
}

/// The categories that a trial sends right.
pub open spec fn goes_right(plan: &CatPlan, cut_values: Seq<u32>, trial: CatTrial, c: int) -> bool {
    if plan.one_hot {
        category_spec(cut_values[trial.choice as int]) == Some(c as u32) && 0 <= c <= u32::MAX
    } else {
        exists|i: int|
            0 <= i < trial.choice && category_spec(cut_values[(#[trigger] plan.order[i]) as int]) == Some(c as u32) && 0
                <= c <= u32::MAX
    }
}

/// The winner of the scored trials, and the categories it sends right as a bit set over the
/// feature's bins; no split and no set where no trial gains anything.
pub fn enumerate(plan: &CatPlan, cut_values: &[u32], scores: &[Score]) -> (result: (CatCandidate, Vec<u32>))
    requires
        scores.len() == plan.trials.len(),
        plan.order.len() == cut_values.len(),
        forall|i: int| 0 <= i < plan.order.len() ==> #[trigger] plan.order[i] < cut_values.len(),
        forall|x: int|
            0 <= x < plan.trials.len() ==> if plan.one_hot {
                (#[trigger] plan.trials[x]).choice < cut_values.len()
            } else {
                plan.trials[x].choice <= cut_values.len()
            },
        forall|c: int|
            0 <= c < cut_values.len() ==> category_spec(#[trigger] cut_values[c]) is Some && category_spec(
                cut_values[c],
            )->0 < cut_values.len(),
    ensures
        (forall|j: int|
            0 <= j < scores.len() && is_finite((#[trigger] scores[j]).gain) ==> !lt_spec(0, scores[j].loss_chg)) ==> (
        result.0 == (CatCandidate {
            loss_chg: 0,
            split_value: 0,
            default_left: false,
            left: GradientPairInt64 { grad: 0, hess: 0 },
        }) && result.1.len() == 0),
        !(forall|j: int|
            0 <= j < scores.len() && is_finite((#[trigger] scores[j]).gain) ==> !lt_spec(0, scores[j].loss_chg)) ==> exists|
            i: int,
        |
            #[trigger] wins(scores@, i) && candidate_of(plan, cut_values@, scores@, i, result.0, result.1@),
{
    match best_trial(scores) {
        None => (CatCandidate::default(), Vec::new()),
        Some(i) => {
            let trial: CatTrial = plan.trials[i];
            let mut bits: Vec<u32> = empty_set(cut_values.len());
            proof {
                assert(wins(scores@, i as int));
                assert(is_finite(scores[i as int].gain) && lt_spec(0, scores[i as int].loss_chg));
                assert(plan.trials[i as int] == trial);
            }
            if plan.one_hot {
                match category(cut_values[trial.choice]) {
                    Some(c) => {
                        set_bit(&mut bits, c);
                    },
                    None => {},
                }
                assert forall|c: int| #[trigger] holds_category(bits@, c) == goes_right(
                    plan,
                    cut_values@,
                    trial,
                    c,
                ) by {}
            } else {
                let mut k: usize = 0;
                while k < trial.choice
                    invariant
                        trial.choice <= cut_values.len(),
                        plan.order.len() == cut_values.len(),
                        forall|i: int| 0 <= i < plan.order.len() ==> #[trigger] plan.order[i] < cut_values.len(),
                        forall|c: int|
                            0 <= c < cut_values.len() ==> category_spec(#[trigger] cut_values[c]) is Some
                                && category_spec(cut_values[c])->0 < cut_values.len(),
                        k <= trial.choice,
                        bits.len() == (cut_values.len() + 31) / 32,
                        forall|c: int|
                            #[trigger] holds_category(bits@, c) == (exists|i: int|
                                0 <= i < k && category_spec(cut_values[(#[trigger] plan.order[i]) as int]) == Some(
                                    c as u32,
                                ) && 0 <= c <= u32::MAX),
                    decreases trial.choice - k,
                {
                    let ghost was = bits@;
                    match category(cut_values[plan.order[k]]) {
                        Some(c) => {
                            set_bit(&mut bits, c);
                        },
                        None => {},
                    }
                    proof {
                        assert forall|c: int| #[trigger] holds_category(bits@, c) == (exists|i: int|
                            0 <= i < k + 1 && category_spec(cut_values[(#[trigger] plan.order[i]) as int]) == Some(
                                c as u32,
                            ) && 0 <= c <= u32::MAX) by {
                            assert(holds_category(bits@, c) == (Some(c as u32) == category_spec(
                                cut_values[plan.order[k as int] as int],
                            ) && 0 <= c <= u32::MAX || holds_category(was, c)));
                        }
                    }
                    k += 1;
                }
            }
            let split_value: u32 = if plan.one_hot {
                cut_values[trial.choice]
            } else {
                NAN_BITS
            };
            let candidate = CatCandidate {
                loss_chg: scores[i].loss_chg,
                split_value,
                default_left: trial.default_left,
                left: trial.left,
            };
            assert(candidate_of(plan, cut_values@, scores@, i as int, candidate, bits@));
            (candidate, bits)
        },
    }
}

/// The candidate that trial `i` makes, and the set of the categories it sends right.
pub open spec fn candidate_of(
    plan: &CatPlan,
    cut_values: Seq<u32>,
    scores: Seq<Score>,
    i: int,
    candidate: CatCandidate,
    bits: Seq<u32>,
) -> bool {
    let trial = plan.trials[i];
    &&& candidate.loss_chg == scores[i].loss_chg
    &&& candidate.default_left == trial.default_left
    &&& candidate.left == trial.left
    &&& candidate.split_value == (if plan.one_hot {
        cut_values[trial.choice as int]
    } else {
        NAN_BITS
    })
    &&& bits.len() == (cut_values.len() + 31) / 32
    &&& forall|c: int| #[trigger] holds_category(bits, c) == goes_right(plan, cut_values, trial, c)
}

/// A categorical winner as a split candidate.
pub fn as_candidate(fidx: u32, cand: &CatCandidate) -> (split: DeviceSplitCandidate)
    requires
        fidx < DEFAULT_LEFT_BIT,
    ensures
        split.loss_chg == cand.loss_chg,
        split.feature() == fidx,
        split.missing_left() == cand.default_left,
        split.split_value == cand.split_value,
        split.left_grad == cand.left.grad,
        split.left_hess == cand.left.hess,
        split.is_cat,
{
    DeviceSplitCandidate {
        loss_chg: cand.loss_chg,
        sindex: tag_index(fidx, cand.default_left),
        split_value: cand.split_value,
        left_grad: cand.left.grad,
        left_hess: cand.left.hess,
        is_cat: true,
    }
}

/// One categorical feature's winner: the feature, the candidate, and the categories it sends
/// right.
#[derive(Clone, Debug)]
pub struct CatWinner {
    pub fidx: u32,
    pub candidate: CatCandidate,
    pub bits: Vec<u32>,
}

/// The candidate replaces the best one so far.
pub open spec fn replaces_spec(gain: u32, fidx: u32, best_gain: u32, best_fidx: u32) -> bool {
    is_finite(gain) && if best_fidx <= fidx {
        lt_spec(best_gain, gain)
    } else {
        !lt_spec(gain, best_gain)
    }
}

/// The feature and gain that the first `n` categorical winners leave best, and which of
/// them it is.
pub open spec fn best_upto(numeric: DeviceSplitCandidate, winners: Seq<CatWinner>, n: int) -> (u32, u32, Option<int>)
    decreases n,
{
    if n <= 0 {
        (numeric.feature(), numeric.loss_chg, None)
    } else {
        let best = best_upto(numeric, winners, n - 1);
        let w = winners[n - 1];
        if replaces_spec(w.candidate.loss_chg, w.fidx, best.1, best.0) {
            (w.fidx, w.candidate.loss_chg, Some(n - 1))
        } else {
            best
        }
    }
}

/// `best` is the best of a node's numeric winner and its categorical ones, and `bits` the set
/// of categories it sends right.
pub open spec fn merged(numeric: DeviceSplitCandidate, winners: Seq<CatWinner>, best: DeviceSplitCandidate, bits: Seq<u32>) -> bool {
    match best_upto(numeric, winners, winners.len() as int).2 {
        None => best == numeric && bits.len() == 0,
        Some(k) => {
            let w = winners[k];
            &&& 0 <= k < winners.len()
            &&& bits == w.bits@
            &&& best.is_cat
            &&& best.feature() == w.fidx
            &&& best.loss_chg == w.candidate.loss_chg
            &&& best.missing_left() == w.candidate.default_left
            &&& best.split_value == w.candidate.split_value
            &&& best.left_grad == w.candidate.left.grad
            &&& best.left_hess == w.candidate.left.hess
        },
    }
}

/// The best of a node's numeric winner and its categorical ones, and the set of categories
/// it sends right.
pub fn merge_winners(numeric: DeviceSplitCandidate, winners: &[CatWinner]) -> (best: (DeviceSplitCandidate, Vec<u32>))
    requires
        forall|k: int| 0 <= k < winners.len() ==> (#[trigger] winners[k]).fidx < DEFAULT_LEFT_BIT,
    ensures
        merged(numeric, winners@, best.0, best.1@),
{
    let mut best: DeviceSplitCandidate = numeric;
    let mut which: Option<usize> = None;
    let mut k: usize = 0;
    while k < winners.len()
        invariant
            forall|k: int| 0 <= k < winners.len() ==> (#[trigger] winners[k]).fidx < DEFAULT_LEFT_BIT,
            k <= winners.len(),
            best.feature() == best_upto(numeric, winners@, k as int).0,
            best.loss_chg == best_upto(numeric, winners@, k as int).1,
            match which {
                None => best_upto(numeric, winners@, k as int).2 is None && best == numeric,
                Some(j) => {
                    let w = winners[j as int];
                    &&& j < k
                    &&& best_upto(numeric, winners@, k as int).2 == Some(j as int)
                    &&& best.is_cat
                    &&& best.feature() == w.fidx
                    &&& best.loss_chg == w.candidate.loss_chg
                    &&& best.missing_left() == w.candidate.default_left
                    &&& best.split_value == w.candidate.split_value
                    &&& best.left_grad == w.candidate.left.grad
                    &&& best.left_hess == w.candidate.left.hess
                },
            },
        decreases winners.len() - k,
    {
        let w: &CatWinner = &winners[k];
        if replaces(w.candidate.loss_chg, w.fidx, best.loss_chg, best.split_index()) {
            best = as_candidate(w.fidx, &w.candidate);
            which = Some(k);
        }
        k += 1;
    }
    let mut bits: Vec<u32> = Vec::new();
    match which {
        Some(j) => {
            bits.extend_from_slice(winners[j].bits.as_slice());
            assert(bits@ =~= winners[j as int].bits@);
        },
        None => {},
    }
    (best, bits)
}

/// Whatever split of the categories is tried, its two sides make up the node. One category alone
/// goes right, with the missing rows where they do not go left; otherwise the first of the order go
/// right, or the last of them left.
pub proof fn lemma_sides_add_up(
    bins: Seq<GradientPairInt64>,
    order: Seq<usize>,
    parent: GradientPairInt64,
    i: int,
)
    ensures
        ({
            let t = alone(bins, parent, i);
            &&& wrap(plus(exact(t.left), exact(t.right))) == parent
            &&& t.right == bins[i] && t.default_left
        }),
        ({
            let t = alone_with_missing(bins, parent, i);
            &&& wrap(plus(exact(t.left), exact(t.right))) == parent
            &&& wrap(plus(exact(t.left), exact(bins[i]))) == wrap(bins_sum(bins)) && !t.default_left
        }),
        ({
            let t = head_right(bins, order, parent, i);
            &&& wrap(plus(exact(t.left), exact(t.right))) == parent
            &&& t.right == wrap(total(i, |k: int| exact(bins[order[k] as int]))) && t.default_left
        }),
        ({
            let t = tail_left(bins, order, parent, i);
            &&& wrap(plus(exact(t.left), exact(t.right))) == parent
            &&& t.left == wrap(total(i, |k: int| exact(bins[order[order.len() - 1 - k] as int]))) && !t.default_left
        }),
{
    let p = exact(parent);
    let all = bins_sum(bins);
    let one = exact(bins[i]);
    let others = minus(all, one);
    let head = head_sum(bins, order, i);
    let tail = tail_sum(bins, order, i);
    lemma_wrap_exact(parent);
    lemma_wrap_exact(bins[i]);
    lemma_wrap_plus(minus(p, one), one);
    lemma_wrap_plus(others, minus(p, others));
    lemma_wrap_plus(others, one);
    lemma_wrap_plus(minus(p, head), head);
    lemma_wrap_plus(tail, minus(p, tail));
    assert(plus(minus(p, one), one) == p);
    assert(plus(others, minus(p, others)) == p);
    assert(plus(others, one) == all);
    assert(plus(minus(p, head), head) == p);
    assert(plus(tail, minus(p, tail)) == p);
}

/// One category at a time is tried exactly where there are fewer than the limit, and then every one,
/// with the missing rows on either side. Otherwise the categories stand in the order of their
/// weights, and no more of them than the threshold go to one side.
pub proof fn lemma_plan(
    plan: CatPlan,
    param: &TrainParam,
    bins: Seq<GradientPairInt64>,
    weights: Seq<u32>,
    parent: GradientPairInt64,
    i: int,
    j: int,
)
    requires
        plan.lists(param, bins, weights, parent),
        weights.len() == bins.len(),
        bins.len() <= usize::MAX,
        0 <= i < j < bins.len(),
    ensures
        plan.one_hot <==> bins.len() < param.max_cat_to_onehot,
        plan.one_hot ==> plan.trials.len() == 2 * bins.len() && plan.trials[2 * i].choice == i && plan.trials[2 * i
            + 1].choice == i && plan.trials[2 * i].default_left && !plan.trials[2 * i + 1].default_left,
        !plan.one_hot ==> plan.trials.len() <= 2 * param.max_cat_threshold,
        plan.order.len() == bins.len(),
        plan.order[i] != plan.order[j],
        !(rank(weights[plan.order[j] as int]) < rank(weights[plan.order[i] as int])),
{
    let keys = Seq::new(weights.len(), |i: int| key_spec(weights[i]));
    let a = plan.order[i] as int;
    let b = plan.order[j] as int;
    assert(crate::data::radix::comes_before(keys, a, b));
    assert(keys[a] == key_spec(weights[a]) && keys[b] == key_spec(weights[b]));
    crate::data::cuts::lemma_key_order(weights[b], weights[a]);
    if plan.one_hot {
        assert((2 * i) % 2 == 0 && (2 * i) / 2 == i && (2 * i + 1) % 2 == 1 && (2 * i + 1) / 2 == i);
        assert(plan.trials[2 * i] == alone(bins, parent, i));
        assert(plan.trials[2 * i + 1] == alone_with_missing(bins, parent, i));
    }
}

/// The winning split gains as much as any whose gain is a number, and is the first that gains so
/// much.
pub proof fn lemma_winner(scores: Seq<Score>, i: int, j: int)
    requires
        wins(scores, i),
        0 <= j < scores.len(),
        is_finite(scores[j].gain),
        !is_nan_spec(scores[j].loss_chg),
    ensures
        rank(scores[i].loss_chg) > 0,
        rank(scores[j].loss_chg) <= rank(scores[i].loss_chg),
        rank(scores[j].loss_chg) == rank(scores[i].loss_chg) ==> i <= j,
{
}

/// Only an infinite number and what is no number are not finite.
pub proof fn lemma_finite(bits: u32)
    ensures
        is_finite(bits) <==> !is_nan_spec(bits) && bits != 0x7F80_0000 && bits != 0xFF80_0000,
{
}

/// The split that is taken of a node gains as much as the best one on a number and as every best
/// one on categories, and of those that gain as much it is on the lowest feature.
pub proof fn lemma_merged_gains_most(
    numeric: DeviceSplitCandidate,
    winners: Seq<CatWinner>,
    best: DeviceSplitCandidate,
    bits: Seq<u32>,
    k: int,
)
    requires
        merged(numeric, winners, best, bits),
        !is_nan_spec(numeric.loss_chg),
        0 <= k < winners.len(),
        is_finite(winners[k].candidate.loss_chg),
    ensures
        rank(numeric.loss_chg) <= rank(best.loss_chg),
        rank(winners[k].candidate.loss_chg) <= rank(best.loss_chg),
        rank(winners[k].candidate.loss_chg) == rank(best.loss_chg) ==> best.feature() <= winners[k].fidx,
        rank(numeric.loss_chg) == rank(best.loss_chg) ==> best.feature() <= numeric.feature(),
{
    lemma_best_upto(numeric, winners, winners.len() as int);
}

proof fn lemma_best_upto(numeric: DeviceSplitCandidate, winners: Seq<CatWinner>, n: int)
    requires
        !is_nan_spec(numeric.loss_chg),
        0 <= n <= winners.len(),
    ensures
        ({
            let best = best_upto(numeric, winners, n);
            &&& !is_nan_spec(best.1)
            &&& rank(numeric.loss_chg) <= rank(best.1)
            &&& rank(numeric.loss_chg) == rank(best.1) ==> best.0 <= numeric.feature()
            &&& forall|k: int|
                0 <= k < n && is_finite((#[trigger] winners[k]).candidate.loss_chg) ==> rank(
                    winners[k].candidate.loss_chg,
                ) <= rank(best.1) && (rank(winners[k].candidate.loss_chg) == rank(best.1) ==> best.0
                    <= winners[k].fidx)
            &&& best.2 matches Some(k) ==> 0 <= k < n && best.0 == winners[k].fidx && best.1
                == winners[k].candidate.loss_chg
            &&& best.2 is None ==> best.0 == numeric.feature() && best.1 == numeric.loss_chg
        }),
    decreases n,
{
    if n > 0 {
        lemma_best_upto(numeric, winners, n - 1);
    }
}

/// A larger gain replaces the best one whichever feature it is on, and an equal one on a lower
/// feature alone; one that is no finite number replaces nothing.
pub proof fn lemma_replaces(gain: u32, fidx: u32, best_gain: u32, best_fidx: u32)
    ensures
        !is_finite(gain) ==> !replaces_spec(gain, fidx, best_gain, best_fidx),
        is_finite(gain) && lt_spec(best_gain, gain) ==> replaces_spec(gain, fidx, best_gain, best_fidx),
        lt_spec(gain, best_gain) ==> !replaces_spec(gain, fidx, best_gain, best_fidx),
        is_finite(gain) && rank(gain) == rank(best_gain) ==> (replaces_spec(gain, fidx, best_gain, best_fidx)
            <==> fidx < best_fidx),
{
}

} // verus!
