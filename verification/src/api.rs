//! The decisions of training and prediction: what is refused, how a prediction is shaped, when
//! a fit stops.

use vstd::prelude::*;
use vstd::string::StringExecFns;

use crate::error::Error;
use crate::float_bits::{same, same_spec, wide_is_nan, wide_lt, wide_lt_spec, wide_rank, wide_same, wide_same_spec};
use crate::parameters::{
    Device, GeneralParameters, IterationRange, MultiStrategy, PredictParameters, PredictionType, TrainingParameters,
    TreeBoosterParameters, TreeUpdaterName, VerboseEval,
};
use crate::text::{chars_of, decimal, sentence};
use crate::tree::param::{GrowPolicy, TrainParam};

verus! {

/// A prediction plus the shape it should be read with.
#[derive(Clone, Debug, PartialEq, Eq)]
pub struct Prediction {
    /// The values, row-major in `shape` order.
    pub values: Vec<u32>,
    /// Dimensions of `values`.
    pub shape: Vec<usize>,
}

/// The product of the dimensions `from..to`.
pub open spec fn product(shape: Seq<usize>, from: int, to: int) -> int
    decreases to - from,
{
    if to <= from {
        1
    } else {
        product(shape, from, to - 1) * shape[to - 1]
    }
}

impl Prediction {
    /// Values per row: the product of every dimension after the first.
    pub fn row_stride(&self) -> (n: usize)
        requires
            forall|k: int| 1 <= k <= self.shape.len() ==> #[trigger] product(self.shape@, 1, k) <= usize::MAX,
        ensures
            n == (if product(self.shape@, 1, self.shape.len() as int) < 1 {
                1
            } else {
                product(self.shape@, 1, self.shape.len() as int)
            }),
    {
        let mut n: usize = 1;
        let mut i: usize = 1;
        while i < self.shape.len()
            invariant
                forall|k: int| 1 <= k <= self.shape.len() ==> #[trigger] product(self.shape@, 1, k) <= usize::MAX,
                1 <= i,
                i <= self.shape.len() || i == 1,
                n == product(self.shape@, 1, i as int),
            decreases self.shape.len() - i,
        {
            proof {
                assert(product(self.shape@, 1, i + 1) <= usize::MAX);
                assert(product(self.shape@, 1, i + 1) == product(self.shape@, 1, i as int) * self.shape[i as int]);
            }
            n = n * self.shape[i];
            i += 1;
        }
        if n < 1 {
            1
        } else {
            n
        }
    }
}

/// The shape of a value or margin prediction.
pub open spec fn value_shape(n_rows: usize, stride: usize, strict: bool) -> Seq<usize> {
    if strict || stride > 1 {
        seq![n_rows, stride]
    } else {
        seq![n_rows]
    }
}

pub fn shape_for_value(n_rows: usize, stride: usize, strict: bool) -> (shape: Vec<usize>)
    ensures
        shape@ == value_shape(n_rows, stride, strict),
{
    let shape: Vec<usize> = if strict || stride > 1 {
        vec![n_rows, stride]
    } else {
        vec![n_rows]
    };
    assert(shape@ =~= value_shape(n_rows, stride, strict));
    shape
}

/// What a prediction's shape follows from.
#[derive(Clone, Copy, Debug, PartialEq, Eq, Structural)]
pub struct ShapeInputs {
    pub n_rows: usize,
    pub n_groups: usize,
    pub n_features: usize,
    /// Values per row of a value prediction, which an objective may have collapsed.
    pub stride: usize,
    /// Leaves reported per row.
    pub leaves: usize,
    /// Rounds the prediction uses.
    pub rounds: usize,
    pub num_parallel_tree: u32,
}

/// The shape of a prediction with trees.
pub open spec fn tree_shape_of(kind: PredictionType, strict: bool, s: ShapeInputs) -> Seq<usize> {
    let width = (s.n_features + 1) as usize;
    match kind {
        PredictionType::Value => value_shape(s.n_rows, s.stride, strict),
        PredictionType::Margin => value_shape(s.n_rows, s.n_groups, strict),
        PredictionType::Leaf => if strict {
            seq![
                s.n_rows,
                s.rounds,
                s.n_groups,
                if s.num_parallel_tree == 0 {
                    1
                } else {
                    s.num_parallel_tree as usize
                },
            ]
        } else {
            seq![s.n_rows, s.leaves]
        },
        PredictionType::Contribution | PredictionType::ApproxContribution => contribution_shape(
            s.n_rows,
            s.n_groups,
            width,
            strict,
        ),
        PredictionType::Interaction | PredictionType::ApproxInteraction => interaction_shape(
            s.n_rows,
            s.n_groups,
            width,
            strict,
        ),
    }
}

pub open spec fn contribution_shape(n_rows: usize, n_groups: usize, width: usize, strict: bool) -> Seq<usize> {
    if strict || n_groups > 1 {
        seq![n_rows, n_groups, width]
    } else {
        seq![n_rows, width]
    }
}

pub open spec fn interaction_shape(n_rows: usize, n_groups: usize, width: usize, strict: bool) -> Seq<usize> {
    if strict || n_groups > 1 {
        seq![n_rows, n_groups, width, width]
    } else {
        seq![n_rows, width, width]
    }
}

/// The shape of a prediction with trees.
pub fn tree_shape(params: &PredictParameters, s: &ShapeInputs) -> (shape: Vec<usize>)
    requires
        s.n_features < usize::MAX,
    ensures
        shape@ == tree_shape_of(params.predict_type, params.strict_shape, *s),
{
    let strict: bool = params.strict_shape;
    let width: usize = s.n_features + 1;
    let shape: Vec<usize> = match params.predict_type {
        PredictionType::Value => shape_for_value(s.n_rows, s.stride, strict),
        PredictionType::Margin => shape_for_value(s.n_rows, s.n_groups, strict),
        PredictionType::Leaf => if strict {
            let parallel: usize = if s.num_parallel_tree == 0 {
                1
            } else {
                s.num_parallel_tree as usize
            };
            vec![s.n_rows, s.rounds, s.n_groups, parallel]
        } else {
            vec![s.n_rows, s.leaves]
        },
        PredictionType::Contribution | PredictionType::ApproxContribution => if strict || s.n_groups > 1 {
            vec![s.n_rows, s.n_groups, width]
        } else {
            vec![s.n_rows, width]
        },
        PredictionType::Interaction | PredictionType::ApproxInteraction => if strict || s.n_groups > 1 {
            vec![s.n_rows, s.n_groups, width, width]
        } else {
            vec![s.n_rows, width, width]
        },
    };
    assert(shape@ =~= tree_shape_of(params.predict_type, strict, *s));
    shape
}

/// The shape of a prediction with a linear model, which has no rounds to choose from and no
/// leaves to report.
pub fn linear_shape(params: &PredictParameters, s: &ShapeInputs) -> (result: Result<Vec<usize>, Error>)
    requires
        s.n_features < usize::MAX,
    ensures
        params.iteration_range != (IterationRange { begin: 0, end: 0 }) ==> result is Err && result->Err_0.refuses(
            "iteration_range"@,
            "the `gblinear` booster has no per-round trees, so it cannot predict a round range"@,
        ),
        params.iteration_range == (IterationRange { begin: 0, end: 0 }) && params.predict_type is Leaf ==> result is Err
            && result->Err_0.refuses("predict_type"@, "the `gblinear` booster has no leaves to report"@),
        params.iteration_range == (IterationRange { begin: 0, end: 0 }) && !(params.predict_type is Leaf) ==> result
            is Ok && result->Ok_0@ == tree_shape_of(params.predict_type, params.strict_shape, *s),
{
    if params.iteration_range.begin != 0 || params.iteration_range.end != 0 {
        return Err(
            Error::invalid(
                "iteration_range",
                "the `gblinear` booster has no per-round trees, so it cannot predict a round range".to_owned(),
            ),
        );
    }
    if let PredictionType::Leaf = params.predict_type {
        return Err(
            Error::invalid("predict_type", "the `gblinear` booster has no leaves to report".to_owned()),
        );
    }
    Ok(tree_shape(params, s))
}

/// The features of the matrix are those of the model, where that is asked for.
pub fn check_features(params: &PredictParameters, model: usize, matrix: usize) -> (result: Result<(), Error>)
    ensures
        result is Ok <==> !params.validate_features || matrix == model,
        result matches Err(e) ==> e.refuses(
            "validate_features"@,
            "the model has "@ + decimal(model as nat) + " features, the matrix has "@ + decimal(matrix as nat) + ""@,
        ),
{
    if params.validate_features && matrix != model {
        return Err(
            Error::invalid(
                "validate_features",
                sentence("the model has ", model as u64, " features, the matrix has ", matrix as u64, ""),
            ),
        );
    }
    Ok(())
}

/// Where the interaction of features `i` and `j` of one row and group stands.
pub open spec fn interaction_at(width: int, slot: int, i: int, j: int) -> int {
    slot * width * width + i * width + j
}

/// A linear model has no interaction effects, so the whole of a feature's contribution is its
/// main effect, and the matrix of each row and group is diagonal.
pub fn linear_interactions(contribs: &[u32], slots: usize, width: usize) -> (values: Vec<u32>)
    requires
        contribs.len() == slots * width,
        slots * width * width <= usize::MAX,
    ensures
        values.len() == slots * width * width,
        forall|slot: int, i: int, j: int|
            0 <= slot < slots && 0 <= i < width && 0 <= j < width ==> #[trigger] values[interaction_at(
                width as int,
                slot,
                i,
                j,
            )] == (if i == j {
                contribs[slot * width + i]
            } else {
                0
            }),
{
    let ghost w = width as int;
    let mut values: Vec<u32> = Vec::new();
    let total: usize = contribs.len();
    let mut k: usize = 0;
    // One row of a matrix after the other: its contribution on the diagonal.
    while k < total
        invariant
            w == width,
            total == contribs.len(),
            total == slots * width,
            slots * width * width <= usize::MAX,
            k <= total,
            values.len() == k * w,
            forall|a: int, j: int|
                0 <= a < k && 0 <= j < w ==> #[trigger] values[crate::gpu::ellpack::cell_at(w, a, j)] == (if j == a % w {
                    contribs[a]
                } else {
                    0
                }),
        decreases total - k,
    {
        let mut j: usize = 0;
        while j < width
            invariant
                w == width,
                k < total,
                total == contribs.len(),
                j <= width,
                values.len() == k * w + j,
                forall|a: int, x: int|
                    0 <= a < k && 0 <= x < w ==> #[trigger] values[crate::gpu::ellpack::cell_at(w, a, x)] == (if x == a
                        % w {
                        contribs[a]
                    } else {
                        0
                    }),
                forall|x: int|
                    0 <= x < j ==> #[trigger] values[crate::gpu::ellpack::cell_at(w, k as int, x)] == (if x == k as int
                        % w {
                        contribs[k as int]
                    } else {
                        0
                    }),
            decreases width - j,
        {
            let ghost was = values@;
            values.push(
                if j == k % width {
                    contribs[k]
                } else {
                    0
                },
            );
            proof {
                assert forall|a: int, x: int| 0 <= a < k && 0 <= x < w implies #[trigger] values[crate::gpu::ellpack::cell_at(
                    w,
                    a,
                    x,
                )] == (if x == a % w {
                    contribs[a]
                } else {
                    0
                }) by {
                    crate::gpu::ellpack::lemma_cell_inside(k as int, w, a, x);
                    assert(was[crate::gpu::ellpack::cell_at(w, a, x)] == (if x == a % w {
                        contribs[a]
                    } else {
                        0
                    }));
                }
                assert(0 <= k * w) by (nonlinear_arith)
                    requires
                        0 <= k,
                        0 <= w,
                ;
                assert forall|x: int| 0 <= x < j + 1 implies #[trigger] values[crate::gpu::ellpack::cell_at(
                    w,
                    k as int,
                    x,
                )] == (if x == k as int % w {
                    contribs[k as int]
                } else {
                    0
                }) by {
                    if x < j {
                        assert(was[crate::gpu::ellpack::cell_at(w, k as int, x)] == (if x == k as int % w {
                            contribs[k as int]
                        } else {
                            0
                        }));
                    }
                }
            }
            j += 1;
        }
        assert((k + 1) * w == k * w + w) by (nonlinear_arith);
        k += 1;
    }
    proof {
        assert forall|slot: int, i: int, j: int|
            0 <= slot < slots && 0 <= i < w && 0 <= j < w implies #[trigger] values[interaction_at(w, slot, i, j)] == (
        if i == j {
            contribs[slot * width + i]
        } else {
            0
        }) by {
            let a = slot * w + i;
            assert(0 <= a < slots * w && interaction_at(w, slot, i, j) == a * w + j) by (nonlinear_arith)
                requires
                    0 <= slot,
                    slot + 1 <= slots,
                    0 <= i < w,
                    a == slot * w + i,
                    interaction_at(w, slot, i, j) == slot * w * w + i * w + j,
            ;
            vstd::arithmetic::div_mod::lemma_fundamental_div_mod_converse(a, w, slot, i);
            assert(values[crate::gpu::ellpack::cell_at(w, a, j)] == (if j == a % w {
                contribs[a]
            } else {
                0
            }));
        }
    }
    values
}

/// Tracks the watchlist score and decides when to stop: the metric watched is the last metric
/// of the last evaluation set, and a round counts as an improvement only if it beats the best
/// score seen so far. Scores are double-precision bit patterns.
#[derive(Clone, Copy, Debug, PartialEq, Eq, Structural)]
pub struct EarlyStopping {
    pub rounds: u32,
    pub maximize: bool,
    /// Index into a round's results of the metric being watched.
    pub watched: usize,
    pub best_score: u64,
    pub best_iteration: usize,
    pub since_improvement: u32,
    pub started: bool,
}

/// The text begins with the prefix.
pub open spec fn begins_with(s: Seq<char>, prefix: Seq<char>) -> bool {
    prefix.len() <= s.len() && s.subrange(0, prefix.len() as int) == prefix
}

fn starts_with(s: &Vec<char>, prefix: &str) -> (yes: bool)
    ensures
        yes == begins_with(s@, prefix@),
{
    let p: Vec<char> = chars_of(prefix);
    if p.len() > s.len() {
        return false;
    }
    let mut i: usize = 0;
    while i < p.len()
        invariant
            p@ == prefix@,
            p.len() <= s.len(),
            i <= p.len(),
            forall|j: int| 0 <= j < i ==> #[trigger] s[j] == p[j],
        decreases p.len() - i,
    {
        if s[i] != p[i] {
            assert(s@.subrange(0, p.len() as int)[i as int] != p@[i as int]);
            return false;
        }
        i += 1;
    }
    assert(s@.subrange(0, p.len() as int) =~= p@);
    true
}

/// The metric is better when larger.
pub open spec fn maximised(metric: Seq<char>) -> bool {
    metric != "mape"@ && (begins_with(metric, "auc"@) || begins_with(metric, "aucpr"@) || begins_with(metric, "pre"@)
        || begins_with(metric, "map"@) || begins_with(metric, "ndcg"@) || begins_with(metric, "ams"@) || begins_with(
        metric,
        "interval-regression-accuracy"@,
    ))
}

/// Whether a metric is better when larger, by its name.
pub fn metric_is_maximised(metric: &str) -> (yes: bool)
    ensures
        yes == maximised(metric@),
{
    let s: Vec<char> = chars_of(metric);
    let name: String = metric.to_owned();
    if name == "mape".to_owned() {
        return false;
    }
    starts_with(&s, "auc") || starts_with(&s, "aucpr") || starts_with(&s, "pre") || starts_with(&s, "map")
        || starts_with(&s, "ndcg") || starts_with(&s, "ams") || starts_with(&s, "interval-regression-accuracy")
}

impl EarlyStopping {
    /// Watch the last of the metrics on the last of the evaluation sets.
    pub fn new(rounds: u32, maximize: Option<bool>, evals: usize, metrics: &[String]) -> (result: Result<Self, Error>)
        requires
            evals * metrics.len() <= usize::MAX,
        ensures
            evals == 0 || metrics.len() == 0 ==> result is Err && result->Err_0.refuses(
                "early_stopping_rounds"@,
                "early stopping needs at least one evaluation set and one metric"@,
            ),
            evals > 0 && metrics.len() > 0 ==> result is Ok && result->Ok_0 == (EarlyStopping {
                rounds,
                maximize: match maximize {
                    Some(m) => m,
                    None => maximised(metrics@.last()@),
                },
                watched: (evals * metrics.len() - 1) as usize,
                best_score: 0,
                best_iteration: 0,
                since_improvement: 0,
                started: false,
            }),
    {
        if evals == 0 || metrics.len() == 0 {
            return Err(
                Error::invalid(
                    "early_stopping_rounds",
                    "early stopping needs at least one evaluation set and one metric".to_owned(),
                ),
            );
        }
        let n: usize = metrics.len();
        assert(evals * n >= 1) by (nonlinear_arith)
            requires
                evals >= 1,
                n >= 1,
        ;
        // Results are laid out set-major, so the last set's last metric is the final entry
        // of a round.
        let watched: usize = evals * n - 1;
        let maximize: bool = match maximize {
            Some(m) => m,
            None => metric_is_maximised(metrics[n - 1].as_str()),
        };
        Ok(
            EarlyStopping {
                rounds,
                maximize,
                watched,
                best_score: 0,
                best_iteration: 0,
                since_improvement: 0,
                started: false,
            },
        )
    }

    /// A score is an improvement: the first one, or one that beats the best.
    pub open spec fn improves(&self, score: u64) -> bool {
        !self.started || if self.maximize {
            wide_lt_spec(self.best_score, score)
        } else {
            wide_lt_spec(score, self.best_score)
        }
    }

    /// What a round's score makes of the tracker.
    pub open spec fn after(&self, iter: usize, score: u64) -> Self {
        if self.improves(score) {
            EarlyStopping {
                best_score: score,
                best_iteration: iter,
                since_improvement: 0,
                started: true,
                ..*self
            }
        } else {
            EarlyStopping { since_improvement: (self.since_improvement + 1) as u32, ..*self }
        }
    }

    /// Record a round; `true` when training should stop.
    pub fn update(&mut self, iter: usize, scores: &[u64]) -> (stop: bool)
        requires
            old(self).watched < scores.len(),
            old(self).since_improvement < u32::MAX,
        ensures
            *final(self) == old(self).after(iter, scores[old(self).watched as int]),
            stop == (final(self).since_improvement >= final(self).rounds),
    {
        let score: u64 = scores[self.watched];
        let improved: bool = if !self.started {
            self.started = true;
            true
        } else if self.maximize {
            wide_lt(self.best_score, score)
        } else {
            wide_lt(score, self.best_score)
        };
        if improved {
            self.best_score = score;
            self.best_iteration = iter;
            self.since_improvement = 0;
        } else {
            self.since_improvement = self.since_improvement + 1;
        }
        self.since_improvement >= self.rounds
    }
}

/// Whether a round's scores are printed: every so many rounds and on the first and the last,
/// where there are any.
pub fn shows_round(verbose: VerboseEval, iter: u32, total: u32, scores: usize) -> (show: bool)
    requires
        iter < u32::MAX,
    ensures
        show == (match verbose {
            VerboseEval::Silent => false,
            VerboseEval::Every(n) => (iter == 0 || (n > 0 && iter % n == 0) || iter + 1 == total) && scores > 0,
        }),
        show ==> scores > 0 && !(verbose is Silent),
        !(verbose is Silent) && scores > 0 && (iter == 0 || iter + 1 == total) ==> show,
{
    match verbose {
        VerboseEval::Silent => false,
        VerboseEval::Every(n) => {
            let due: bool = if n == 0 {
                iter == 0
            } else {
                iter % n == 0
            };
            (due || iter + 1 == total) && scores > 0
        },
    }
}

/// The rounds of a fit: which one is next, and whether there is one.
#[derive(Clone, Copy, Debug, PartialEq, Eq, Structural)]
pub struct FitRounds {
    /// Rounds run so far.
    pub done: u32,
    pub total: u32,
    pub stopper: Option<EarlyStopping>,
    pub stopped: bool,
}

impl FitRounds {
    pub fn new(total: u32, stopper: Option<EarlyStopping>) -> (rounds: Self)
        ensures
            rounds == (FitRounds { done: 0, total, stopper, stopped: false }),
    {
        FitRounds { done: 0, total, stopper, stopped: false }
    }

    /// The rounds that were run are no more than were asked for.
    pub open spec fn wf(&self) -> bool {
        &&& self.done <= self.total
        &&& self.stopper matches Some(s) ==> s.since_improvement <= self.done
    }

    /// The round to run next; none once all are done or one was the last.
    pub fn next_round(&self) -> (iter: Option<u32>)
        ensures
            iter == (if self.stopped || self.done >= self.total {
                None
            } else {
                Some(self.done)
            }),
            iter matches Some(i) ==> i < self.total && !self.stopped,
            iter is None ==> self.stopped || self.done >= self.total,
    {
        if self.stopped || self.done >= self.total {
            None
        } else {
            Some(self.done)
        }
    }

    /// A round was run and scored.
    pub fn record(&mut self, scores: &[u64])
        requires
            old(self).wf(),
            !old(self).stopped,
            old(self).done < old(self).total,
            old(self).stopper matches Some(s) ==> s.watched < scores.len(),
        ensures
            final(self).wf(),
            final(self).total == old(self).total,
            final(self).done == old(self).done + 1,
            match old(self).stopper {
                None => final(self).stopper is None && !final(self).stopped,
                Some(s) => {
                    let now = s.after(old(self).done as usize, scores[s.watched as int]);
                    final(self).stopper == Some(now) && final(self).stopped == (now.since_improvement >= now.rounds)
                },
            },
    {
        let iter: usize = self.done as usize;
        match self.stopper {
            Some(s) => {
                let mut now: EarlyStopping = s;
                self.stopped = now.update(iter, scores);
                self.stopper = Some(now);
            },
            None => {},
        }
        self.done = self.done + 1;
    }

    /// The best round and its score, where early stopping was on. Rounds after it are still
    /// part of the model.
    pub fn best(&self) -> (best: (Option<usize>, Option<u64>))
        ensures
            best == (match self.stopper {
                Some(s) => (Some(s.best_iteration), Some(s.best_score)),
                None => (None, None),
            }),
    {
        match self.stopper {
            Some(s) => (Some(s.best_iteration), Some(s.best_score)),
            None => (None, None),
        }
    }
}

/// A feature that a constraint names does not exist.
pub open spec fn stray_feature(groups: Seq<Vec<u32>>, num_col: int, g: int, k: int) -> bool {
    &&& 0 <= g < groups.len()
    &&& 0 <= k < groups[g].len()
    &&& groups[g][k] >= num_col
    &&& forall|j: int| 0 <= j < k ==> #[trigger] groups[g][j] < num_col
    &&& forall|h: int, j: int| 0 <= h < g && 0 <= j < groups[h].len() ==> #[trigger] groups[h][j] < num_col
}

/// The error names the first feature that does not exist.
pub open spec fn names_stray(groups: Seq<Vec<u32>>, num_col: usize, e: Error) -> bool {
    exists|g: int, k: int|
        #[trigger] stray_feature(groups, num_col as int, g, k) && e.refuses(
            "interaction_constraints"@,
            "feature index "@ + decimal(groups[g][k] as nat) + " is out of range for a matrix with "@ + decimal(
                num_col as nat,
            ) + " features"@,
        )
}

/// Every feature that the constraints name exists.
pub open spec fn features_exist(groups: Seq<Vec<u32>>, num_col: int) -> bool {
    forall|g: int, k: int| 0 <= g < groups.len() && 0 <= k < groups[g].len() ==> #[trigger] groups[g][k] < num_col
}

/// The constraints name columns of the matrix only.
pub open spec fn constraints_fit(tree: TreeBoosterParameters, num_col: usize) -> bool {
    &&& tree.monotone_constraints.len() <= num_col
    &&& tree.interaction_constraints matches Some(groups) ==> features_exist(groups@, num_col as int)
}

/// Which constraint does not fit: there are too many monotone ones, or else the first feature
/// that does not exist.
pub open spec fn constraint_error(tree: TreeBoosterParameters, num_col: usize, e: Error) -> bool {
    if tree.monotone_constraints.len() > num_col {
        e.refuses(
            "monotone_constraints"@,
            ""@ + decimal(tree.monotone_constraints.len() as nat) + " constraints given for a matrix with "@ + decimal(
                num_col as nat,
            ) + " features"@,
        )
    } else {
        tree.interaction_constraints matches Some(groups) && names_stray(groups@, num_col, e)
    }
}

/// Check the per-feature constraints against the matrix they will be applied to. One that
/// names a column that does not exist would otherwise constrain nothing.
pub fn check_feature_constraints(tree: &TreeBoosterParameters, num_col: usize) -> (result: Result<(), Error>)
    ensures
        result is Ok <==> constraints_fit(*tree, num_col),
        result matches Err(e) ==> constraint_error(*tree, num_col, e),
        tree.monotone_constraints.len() > num_col ==> result is Err,
        tree.monotone_constraints.len() <= num_col && tree.interaction_constraints is None ==> result is Ok,
{
    if tree.monotone_constraints.len() > num_col {
        return Err(
            Error::invalid(
                "monotone_constraints",
                sentence(
                    "",
                    tree.monotone_constraints.len() as u64,
                    " constraints given for a matrix with ",
                    num_col as u64,
                    " features",
                ),
            ),
        );
    }
    match &tree.interaction_constraints {
        None => {},
        Some(groups) => {
            let mut g: usize = 0;
            while g < groups.len()
                invariant
                    g <= groups.len(),
                    forall|h: int, j: int|
                        0 <= h < g && 0 <= j < groups[h].len() ==> #[trigger] groups[h][j] < num_col,
                    tree.interaction_constraints == Some(*groups),
                    tree.monotone_constraints.len() <= num_col,
                decreases groups.len() - g,
            {
                let mut k: usize = 0;
                while k < groups[g].len()
                    invariant
                        g < groups.len(),
                        k <= groups[g as int].len(),
                        forall|h: int, j: int|
                            0 <= h < g && 0 <= j < groups[h].len() ==> #[trigger] groups[h][j] < num_col,
                        forall|j: int| 0 <= j < k ==> #[trigger] groups[g as int][j] < num_col,
                        tree.interaction_constraints == Some(*groups),
                        tree.monotone_constraints.len() <= num_col,
                    decreases groups[g as int].len() - k,
                {
                    let feature: u32 = groups[g][k];
                    if feature as usize >= num_col {
                        let e: Error = Error::invalid(
                            "interaction_constraints",
                            sentence(
                                "feature index ",
                                feature as u64,
                                " is out of range for a matrix with ",
                                num_col as u64,
                                " features",
                            ),
                        );
                        proof {
                            assert(groups@[g as int]@[k as int] == feature);
                            assert(stray_feature(groups@, num_col as int, g as int, k as int));
                            assert(!features_exist(groups@, num_col as int)) by {
                                assert(groups@[g as int][k as int] >= num_col);
                            }
                            assert(names_stray(groups@, num_col, e));
                        }
                        return Err(e);
                    }
                    k += 1;
                }
                g += 1;
            }
        },
    }
    Ok(())
}

/// The updater is one that can be run; the device grower only where its kernels are built in.
pub open spec fn implemented(updater: TreeUpdaterName, gpu: bool) -> bool {
    ||| updater is GrowQuantileHistMaker
    ||| updater is GrowHistMaker
    ||| updater is GrowColMaker
    ||| updater is Prune
    ||| updater is Refresh
    ||| gpu && updater is GrowGpuHist
}

/// The first updater that cannot be run.
pub open spec fn first_missing(updaters: Seq<TreeUpdaterName>, gpu: bool, i: int) -> bool {
    &&& 0 <= i < updaters.len()
    &&& !implemented(updaters[i], gpu)
    &&& forall|j: int| 0 <= j < i ==> implemented(#[trigger] updaters[j], gpu)
}

/// Every updater can be run.
pub open spec fn all_implemented(updaters: Seq<TreeUpdaterName>, gpu: bool) -> bool {
    forall|i: int| 0 <= i < updaters.len() ==> implemented(#[trigger] updaters[i], gpu)
}

/// The updater is in the pipeline.
pub open spec fn runs(updaters: Seq<TreeUpdaterName>, u: TreeUpdaterName) -> bool {
    updaters.contains(u)
}

fn uses(updaters: &[TreeUpdaterName], u: TreeUpdaterName) -> (yes: bool)
    ensures
        yes == runs(updaters@, u),
{
    let mut i: usize = 0;
    while i < updaters.len()
        invariant
            i <= updaters.len(),
            forall|j: int| 0 <= j < i ==> #[trigger] updaters[j] != u,
        decreases updaters.len() - i,
    {
        if updaters[i] == u {
            assert(updaters@[i as int] == u);
            return true;
        }
        i += 1;
    }
    false
}

/// The pipeline can be run: every stage is there, and the exact grower, which grows level by
/// level, has a depth to stop at.
pub open spec fn pipeline_runs(tree: TreeBoosterParameters, updaters: Seq<TreeUpdaterName>, gpu: bool) -> bool {
    all_implemented(updaters, gpu) && !(runs(updaters, TreeUpdaterName::GrowColMaker) && tree.max_depth == 0)
}

/// Why a pipeline cannot be run: the first stage that is not there, or else the depth.
pub open spec fn pipeline_error(updaters: Seq<TreeUpdaterName>, gpu: bool, e: Error) -> bool {
    if all_implemented(updaters, gpu) {
        e.refuses(
            "max_depth"@,
            "the `exact` tree method grows level by level and cannot run with an unlimited depth; set max_depth"@,
        )
    } else {
        exists|i: int|
            #[trigger] first_missing(updaters, gpu, i) && e.refuses(
                "updater"@,
                "the `"@ + updaters[i].label() + "` updater is not implemented on this device"@,
            )
    }
}

/// Reject configurations whose pipeline is not implemented, rather than training something
/// else.
pub fn check_supported_updater(tree: &TreeBoosterParameters, updaters: &[TreeUpdaterName], gpu: bool) -> (result: Result<
    (),
    Error,
>)
    ensures
        result is Ok <==> pipeline_runs(*tree, updaters@, gpu),
        result matches Err(e) ==> pipeline_error(updaters@, gpu, e),
{
    let mut i: usize = 0;
    while i < updaters.len()
        invariant
            i <= updaters.len(),
            forall|j: int| 0 <= j < i ==> implemented(#[trigger] updaters[j], gpu),
        decreases updaters.len() - i,
    {
        let u: TreeUpdaterName = updaters[i];
        let ok: bool = match u {
            TreeUpdaterName::GrowQuantileHistMaker => true,
            TreeUpdaterName::GrowHistMaker => true,
            TreeUpdaterName::GrowColMaker => true,
            TreeUpdaterName::Prune => true,
            TreeUpdaterName::Refresh => true,
            TreeUpdaterName::GrowGpuHist => gpu,
            _ => false,
        };
        if !ok {
            let mut reason: String = "the `".to_owned();
            reason.append(u.as_str());
            reason.append("` updater is not implemented on this device");
            proof {
                assert(!implemented(updaters[i as int], gpu));
                assert(first_missing(updaters@, gpu, i as int));
            }
            return Err(Error::invalid("updater", reason));
        }
        i += 1;
    }
    // The exact grower grows level by level and has no other stopping rule.
    if uses(updaters, TreeUpdaterName::GrowColMaker) && tree.max_depth == 0 {
        return Err(
            Error::invalid(
                "max_depth",
                "the `exact` tree method grows level by level and cannot run with an unlimited depth; set max_depth".to_owned(),
            ),
        );
    }
    Ok(())
}

/// The pipeline builds one histogram per target.
pub open spec fn builds_histograms(updaters: Seq<TreeUpdaterName>, gpu: bool) -> bool {
    ||| updaters == seq![TreeUpdaterName::GrowQuantileHistMaker]
    ||| gpu && updaters == seq![TreeUpdaterName::GrowGpuHist]
}

/// What is wrong with the tree options, in the order it is looked for: the parameter, and
/// the reason.
pub open spec fn option_objection(
    multi: bool,
    updaters: Seq<TreeUpdaterName>,
    has_categorical: bool,
    gpu: bool,
) -> Option<(Seq<char>, Seq<char>)> {
    if multi && !builds_histograms(updaters, gpu) {
        Some(
            (
                "multi_strategy"@,
                "`multi_output_tree` is implemented for the `hist` tree method only; use `tree_method=hist` with the default updater pipeline"@,
            ),
        )
    } else if multi && has_categorical {
        Some(
            (
                "multi_strategy"@,
                "`multi_output_tree` has no categorical split; one-hot encode the categories, or use `one_output_per_tree`"@,
            ),
        )
    } else if has_categorical && runs(updaters, TreeUpdaterName::GrowColMaker) {
        Some(
            (
                "tree_method"@,
                "the `exact` tree method has no categorical split; use `hist` or `approx`, or one-hot encode the categories yourself"@,
            ),
        )
    } else {
        None
    }
}

/// Reject the tree options that cannot be acted on, so that none of them is accepted and then
/// ignored.
pub fn check_supported_tree_options(
    tree: &TreeBoosterParameters,
    updaters: &[TreeUpdaterName],
    has_categorical: bool,
    gpu: bool,
) -> (result: Result<(), Error>)
    ensures
        match option_objection(
            tree.multi_strategy == MultiStrategy::MultiOutputTree,
            updaters@,
            has_categorical,
            gpu,
        ) {
            None => result is Ok,
            Some((name, reason)) => result is Err && result->Err_0.refuses(name, reason),
        },
{
    if tree.multi_strategy == MultiStrategy::MultiOutputTree {
        let hist: bool = updaters.len() == 1 && (updaters[0] == TreeUpdaterName::GrowQuantileHistMaker || (gpu
            && updaters[0] == TreeUpdaterName::GrowGpuHist));
        proof {
            if updaters.len() == 1 {
                assert(updaters@ =~= seq![updaters[0]]);
            }
            if builds_histograms(updaters@, gpu) {
                assert(updaters.len() == 1);
                assert(updaters@[0] == updaters[0]);
            }
            assert(hist == builds_histograms(updaters@, gpu));
        }
        if !hist {
            return Err(
                Error::invalid(
                    "multi_strategy",
                    "`multi_output_tree` is implemented for the `hist` tree method only; use `tree_method=hist` with the default updater pipeline".to_owned(),
                ),
            );
        }
        if has_categorical {
            return Err(
                Error::invalid(
                    "multi_strategy",
                    "`multi_output_tree` has no categorical split; one-hot encode the categories, or use `one_output_per_tree`".to_owned(),
                ),
            );
        }
    }
    if has_categorical && uses(updaters, TreeUpdaterName::GrowColMaker) {
        return Err(
            Error::invalid(
                "tree_method",
                "the `exact` tree method has no categorical split; use `hist` or `approx`, or one-hot encode the categories yourself".to_owned(),
            ),
        );
    }
    Ok(())
}

/// Some texts, apart from how they are held.
pub open spec fn words(list: Seq<String>) -> Seq<Seq<char>> {
    Seq::new(list.len(), |i: int| list[i]@)
}

/// The list, with a name more where the condition holds.
pub open spec fn listed_if(list: Seq<Seq<char>>, condition: bool, name: Seq<char>) -> Seq<Seq<char>> {
    if condition {
        list.push(name)
    } else {
        list
    }
}

/// The tree settings that were moved from their defaults and that nothing in the fit reads.
pub open spec fn unused_in_tree(
    tree: TreeBoosterParameters,
    default: TreeBoosterParameters,
    updaters: Seq<TreeUpdaterName>,
    has_categorical: bool,
) -> Seq<Seq<char>> {
    let exact = runs(updaters, TreeUpdaterName::GrowColMaker);
    let refresh = runs(updaters, TreeUpdaterName::Refresh);
    let hist = runs(updaters, TreeUpdaterName::GrowQuantileHistMaker) || runs(updaters, TreeUpdaterName::GrowHistMaker);
    let a = listed_if(Seq::empty(), !exact && tree.default_direction != default.default_direction, "default_direction"@);
    let b = listed_if(a, !exact && !same_spec(tree.opt_dense_col, default.opt_dense_col), "opt_dense_col"@);
    let c = listed_if(b, exact && tree.max_bin != default.max_bin, "max_bin"@);
    let d = listed_if(c, !refresh && tree.refresh_leaf != default.refresh_leaf, "refresh_leaf"@);
    let e = listed_if(
        d,
        !has_categorical && tree.max_cat_to_onehot != default.max_cat_to_onehot,
        "max_cat_to_onehot"@,
    );
    let f = listed_if(
        e,
        !has_categorical && tree.max_cat_threshold != default.max_cat_threshold,
        "max_cat_threshold"@,
    );
    let g = listed_if(f, tree.debug_synchronize, "debug_synchronize"@);
    listed_if(g, !hist && !wide_same_spec(tree.sparse_threshold, default.sparse_threshold), "sparse_threshold"@)
}

/// All settings that nothing in the fit reads.
pub open spec fn unused_of(
    general: GeneralParameters,
    tree: Option<TreeBoosterParameters>,
    default: TreeBoosterParameters,
    updaters: Seq<TreeUpdaterName>,
    has_categorical: bool,
) -> Seq<Seq<char>> {
    let a = match tree {
        Some(t) => unused_in_tree(t, default, updaters, has_categorical),
        None => Seq::empty(),
    };
    let b = listed_if(a, general.use_rmm, "use_rmm"@);
    listed_if(b, general.fail_on_invalid_gpu_id, "fail_on_invalid_gpu_id"@)
}

fn push_if(list: &mut Vec<String>, condition: bool, name: &str)
    ensures
        words(final(list)@) == listed_if(words(old(list)@), condition, name@),
{
    let ghost was = words(list@);
    if condition {
        list.push(name.to_owned());
        assert(words(list@) =~= was.push(name@));
    }
}

/// The parameters that were set but that nothing in the fit consumes, so that a caller can
/// tell a knob that did nothing from one that did.
pub fn unused_parameters(
    general: &GeneralParameters,
    tree: Option<&TreeBoosterParameters>,
    default: &TreeBoosterParameters,
    updaters: &[TreeUpdaterName],
    has_categorical: bool,
) -> (unused: Vec<String>)
    ensures
        words(unused@) == unused_of(
            *general,
            match tree {
                Some(t) => Some(*t),
                None => None,
            },
            *default,
            updaters@,
            has_categorical,
        ),
{
    let mut unused: Vec<String> = Vec::new();
    assert(words(unused@) =~= Seq::empty());
    if let Some(tree) = tree {
        let exact: bool = uses(updaters, TreeUpdaterName::GrowColMaker);
        let refresh: bool = uses(updaters, TreeUpdaterName::Refresh);
        let hist: bool = uses(updaters, TreeUpdaterName::GrowQuantileHistMaker) || uses(
            updaters,
            TreeUpdaterName::GrowHistMaker,
        );
        // The two settings of the exact grower, on a fit that runs something else.
        push_if(&mut unused, !exact && tree.default_direction != default.default_direction, "default_direction");
        push_if(&mut unused, !exact && !same(tree.opt_dense_col, default.opt_dense_col), "opt_dense_col");
        // The exact grower enumerates every distinct value, so there are no bins.
        push_if(&mut unused, exact && tree.max_bin != default.max_bin, "max_bin");
        push_if(&mut unused, !refresh && tree.refresh_leaf != default.refresh_leaf, "refresh_leaf");
        // Both categorical settings only mean something once some column is categorical.
        push_if(
            &mut unused,
            !has_categorical && tree.max_cat_to_onehot != default.max_cat_to_onehot,
            "max_cat_to_onehot",
        );
        push_if(
            &mut unused,
            !has_categorical && tree.max_cat_threshold != default.max_cat_threshold,
            "max_cat_threshold",
        );
        // There are no workers to synchronise.
        push_if(&mut unused, tree.debug_synchronize, "debug_synchronize");
        // The column layout, which only the histogram updaters read.
        push_if(
            &mut unused,
            !hist && !wide_same(tree.sparse_threshold, default.sparse_threshold),
            "sparse_threshold",
        );
    }
    push_if(&mut unused, general.use_rmm, "use_rmm");
    push_if(&mut unused, general.fail_on_invalid_gpu_id, "fail_on_invalid_gpu_id");
    unused
}

/// A 32-bit number read as a signed one.
pub open spec fn as_signed(x: u32) -> int {
    if x < 0x8000_0000 {
        x as int
    } else {
        x - 0x1_0000_0000
    }
}

fn signed(x: u32) -> (v: i32)
    ensures
        v == as_signed(x),
{
    if x < 0x8000_0000 {
        x as i32
    } else {
        (x - 0x8000_0000) as i32 + i32::MIN
    }
}

/// The same groups of features.
pub open spec fn same_groups(a: Option<Vec<Vec<u32>>>, b: Option<Vec<Vec<u32>>>) -> bool {
    match (a, b) {
        (None, None) => true,
        (Some(x), Some(y)) => {
            &&& x.len() == y.len()
            &&& forall|g: int| 0 <= g < x.len() ==> (#[trigger] x[g])@ == y[g]@
        },
        _ => false,
    }
}

fn copy_groups(groups: &Option<Vec<Vec<u32>>>) -> (copy: Option<Vec<Vec<u32>>>)
    ensures
        same_groups(copy, *groups),
{
    match groups {
        None => None,
        Some(list) => {
            let mut out: Vec<Vec<u32>> = Vec::with_capacity(list.len());
            let mut g: usize = 0;
            while g < list.len()
                invariant
                    g <= list.len(),
                    out.len() == g,
                    forall|h: int| 0 <= h < g ==> (#[trigger] out[h])@ == list[h]@,
                decreases list.len() - g,
            {
                let mut one: Vec<u32> = Vec::with_capacity(list[g].len());
                one.extend_from_slice(list[g].as_slice());
                assert(one@ =~= list[g as int]@);
                out.push(one);
                g += 1;
            }
            Some(out)
        },
    }
}

/// The internal training parameters are those of the tree booster.
pub open spec fn translates(
    tree: TreeBoosterParameters,
    device: Device,
    max_cached_hist_node: u64,
    updaters: Seq<TreeUpdaterName>,
    p: TrainParam,
) -> bool {
    &&& p.learning_rate == tree.eta
    &&& p.min_split_loss == tree.gamma
    &&& p.max_depth == as_signed(tree.max_depth)
    &&& p.max_leaves == as_signed(tree.max_leaves)
    &&& p.max_bin == tree.max_bin
    &&& p.grow_policy == (if tree.grow_policy@ == "lossguide"@ {
        GrowPolicy::LossGuide
    } else {
        GrowPolicy::DepthWise
    })
    &&& p.min_child_weight == tree.min_child_weight
    &&& p.reg_lambda == tree.lambda
    &&& p.reg_alpha == tree.alpha
    &&& p.max_delta_step == tree.max_delta_step
    &&& p.subsample == tree.subsample
    &&& p.sampling_method == tree.sampling_method
    &&& p.colsample_bytree == tree.colsample_bytree
    &&& p.colsample_bylevel == tree.colsample_bylevel
    &&& p.colsample_bynode == tree.colsample_bynode
    &&& p.num_parallel_tree == tree.num_parallel_tree
    &&& p.monotone_constraints@ == tree.monotone_constraints@
    &&& same_groups(p.interaction_constraints, tree.interaction_constraints)
    &&& p.max_cached_hist_node == max_cached_hist_node
    &&& p.multi_output_tree == (tree.multi_strategy == MultiStrategy::MultiOutputTree)
    &&& p.sparse_threshold == tree.sparse_threshold
    &&& p.max_cat_to_onehot == tree.max_cat_to_onehot
    &&& p.max_cat_threshold == tree.max_cat_threshold
    &&& p.default_direction == tree.default_direction
    &&& p.opt_dense_col == tree.opt_dense_col
    &&& p.updaters@ == updaters
    &&& p.process_type == tree.process_type
    &&& p.refresh_leaf == tree.refresh_leaf
    &&& p.device == device
}

/// Turn the public tree parameters into the internal training parameters. `updaters` is
/// the pipeline they resolve to, or why they resolve to none.
pub fn train_param(
    tree: &TreeBoosterParameters,
    device: Device,
    max_cached_hist_node: u64,
    updaters: Result<Vec<TreeUpdaterName>, Error>,
) -> (result: Result<TrainParam, Error>)
    ensures
        match updaters {
            Err(e) => result == Err::<TrainParam, Error>(e),
            Ok(u) => result is Ok && translates(*tree, device, max_cached_hist_node, u@, result->Ok_0),
        },
        result matches Ok(p) ==> {
            &&& p.learning_rate == tree.eta
            &&& p.min_split_loss == tree.gamma
            &&& tree.max_depth <= i32::MAX ==> p.max_depth == tree.max_depth
            &&& tree.max_leaves <= i32::MAX ==> p.max_leaves == tree.max_leaves
            &&& p.max_bin == tree.max_bin
            &&& p.grow_policy == GrowPolicy::LossGuide <==> tree.grow_policy@ == "lossguide"@
            &&& p.min_child_weight == tree.min_child_weight
            &&& p.reg_lambda == tree.lambda
            &&& p.reg_alpha == tree.alpha
            &&& p.max_delta_step == tree.max_delta_step
            &&& p.subsample == tree.subsample
            &&& p.sampling_method == tree.sampling_method
            &&& p.colsample_bytree == tree.colsample_bytree
            &&& p.colsample_bylevel == tree.colsample_bylevel
            &&& p.colsample_bynode == tree.colsample_bynode
            &&& p.num_parallel_tree == tree.num_parallel_tree
            &&& p.monotone_constraints@ == tree.monotone_constraints@
            &&& p.interaction_constraints is Some <==> tree.interaction_constraints is Some
            &&& p.interaction_constraints matches Some(groups) ==> groups.len()
                == tree.interaction_constraints->0.len() && forall|g: int|
                0 <= g < groups.len() ==> (#[trigger] groups[g])@ == tree.interaction_constraints->0[g]@
            &&& p.max_cached_hist_node == max_cached_hist_node
            &&& p.multi_output_tree <==> tree.multi_strategy == MultiStrategy::MultiOutputTree
            &&& p.sparse_threshold == tree.sparse_threshold
            &&& p.max_cat_to_onehot == tree.max_cat_to_onehot
            &&& p.max_cat_threshold == tree.max_cat_threshold
            &&& p.default_direction == tree.default_direction
            &&& p.opt_dense_col == tree.opt_dense_col
            &&& p.process_type == tree.process_type
            &&& p.refresh_leaf == tree.refresh_leaf
            &&& p.device == device
        },
{
    let updaters: Vec<TreeUpdaterName> = match updaters {
        Ok(u) => u,
        Err(e) => {
            return Err(e);
        },
    };
    let guided: bool = tree.grow_policy == "lossguide".to_owned();
    let mut monotone_constraints: Vec<crate::parameters::MonotoneConstraint> = Vec::with_capacity(
        tree.monotone_constraints.len(),
    );
    monotone_constraints.extend_from_slice(tree.monotone_constraints.as_slice());
    assert(monotone_constraints@ =~= tree.monotone_constraints@);
    Ok(
        TrainParam {
            learning_rate: tree.eta,
            min_split_loss: tree.gamma,
            max_depth: signed(tree.max_depth),
            max_leaves: signed(tree.max_leaves),
            max_bin: tree.max_bin,
            grow_policy: if guided {
                GrowPolicy::LossGuide
            } else {
                GrowPolicy::DepthWise
            },
            min_child_weight: tree.min_child_weight,
            reg_lambda: tree.lambda,
            reg_alpha: tree.alpha,
            max_delta_step: tree.max_delta_step,
            subsample: tree.subsample,
            sampling_method: tree.sampling_method,
            colsample_bytree: tree.colsample_bytree,
            colsample_bylevel: tree.colsample_bylevel,
            colsample_bynode: tree.colsample_bynode,
            num_parallel_tree: tree.num_parallel_tree,
            monotone_constraints,
            interaction_constraints: copy_groups(&tree.interaction_constraints),
            max_cached_hist_node,
            multi_output_tree: tree.multi_strategy == MultiStrategy::MultiOutputTree,
            sparse_threshold: tree.sparse_threshold,
            max_cat_to_onehot: tree.max_cat_to_onehot,
            max_cat_threshold: tree.max_cat_threshold,
            default_direction: tree.default_direction,
            opt_dense_col: tree.opt_dense_col,
            updaters,
            process_type: tree.process_type,
            refresh_leaf: tree.refresh_leaf,
            device,
        },
    )
}

/// Settings that differ in one place are translated into parameters that differ in that place
/// alone: raising the L2 penalty leaves the L1 penalty as it was, and so on for each.
pub proof fn lemma_one_setting(
    a: TreeBoosterParameters,
    b: TreeBoosterParameters,
    device: Device,
    nodes: u64,
    updaters: Seq<TreeUpdaterName>,
    p: TrainParam,
    q: TrainParam,
)
    requires
        translates(a, device, nodes, updaters, p),
        translates(b, device, nodes, updaters, q),
    ensures
        a.lambda == b.lambda <==> p.reg_lambda == q.reg_lambda,
        a.alpha == b.alpha <==> p.reg_alpha == q.reg_alpha,
        a.eta == b.eta <==> p.learning_rate == q.learning_rate,
        a.gamma == b.gamma <==> p.min_split_loss == q.min_split_loss,
        a.min_child_weight == b.min_child_weight <==> p.min_child_weight == q.min_child_weight,
        a.max_delta_step == b.max_delta_step <==> p.max_delta_step == q.max_delta_step,
        a.subsample == b.subsample <==> p.subsample == q.subsample,
        a.colsample_bytree == b.colsample_bytree <==> p.colsample_bytree == q.colsample_bytree,
        a.colsample_bylevel == b.colsample_bylevel <==> p.colsample_bylevel == q.colsample_bylevel,
        a.colsample_bynode == b.colsample_bynode <==> p.colsample_bynode == q.colsample_bynode,
        a.max_bin == b.max_bin <==> p.max_bin == q.max_bin,
        a.max_depth == b.max_depth <==> p.max_depth == q.max_depth,
        a.max_leaves == b.max_leaves <==> p.max_leaves == q.max_leaves,
        a.num_parallel_tree == b.num_parallel_tree <==> p.num_parallel_tree == q.num_parallel_tree,
        a.monotone_constraints@ == b.monotone_constraints@ <==> p.monotone_constraints@ == q.monotone_constraints@,
        a.max_cat_to_onehot == b.max_cat_to_onehot <==> p.max_cat_to_onehot == q.max_cat_to_onehot,
        a.max_cat_threshold == b.max_cat_threshold <==> p.max_cat_threshold == q.max_cat_threshold,
        a.sparse_threshold == b.sparse_threshold <==> p.sparse_threshold == q.sparse_threshold,
        a.opt_dense_col == b.opt_dense_col <==> p.opt_dense_col == q.opt_dense_col,
        a.refresh_leaf == b.refresh_leaf <==> p.refresh_leaf == q.refresh_leaf,
{
}

/// Each parameter is the setting that it is named after or renamed from.
pub proof fn lemma_settings_kept(
    tree: TreeBoosterParameters,
    device: Device,
    nodes: u64,
    updaters: Seq<TreeUpdaterName>,
    p: TrainParam,
)
    requires
        translates(tree, device, nodes, updaters, p),
    ensures
        p.reg_lambda == tree.lambda,
        p.reg_alpha == tree.alpha,
        p.learning_rate == tree.eta,
        p.min_split_loss == tree.gamma,
        p.min_child_weight == tree.min_child_weight,
        p.max_delta_step == tree.max_delta_step,
        p.max_bin == tree.max_bin,
        p.subsample == tree.subsample,
        p.colsample_bytree == tree.colsample_bytree,
        p.colsample_bylevel == tree.colsample_bylevel,
        p.colsample_bynode == tree.colsample_bynode,
        p.num_parallel_tree == tree.num_parallel_tree,
        p.monotone_constraints@ == tree.monotone_constraints@,
        p.max_cat_to_onehot == tree.max_cat_to_onehot,
        p.max_cat_threshold == tree.max_cat_threshold,
        p.sparse_threshold == tree.sparse_threshold,
        p.opt_dense_col == tree.opt_dense_col,
        p.updaters@ == updaters,
        p.process_type == tree.process_type,
        p.device == device,
        tree.max_depth <= i32::MAX ==> p.max_depth == tree.max_depth,
        tree.max_leaves <= i32::MAX ==> p.max_leaves == tree.max_leaves,
        p.multi_output_tree <==> tree.multi_strategy == MultiStrategy::MultiOutputTree,
        p.grow_policy == GrowPolicy::LossGuide <==> tree.grow_policy@ == "lossguide"@,
{
}

/// The metrics of a fit by name: the ones asked for, or else the objective's own unless that
/// is disabled. `default_metric` is what the objective reports by, or why there is no such
/// objective.
pub fn resolved_metric_names(params: &TrainingParameters, default_metric: Result<String, Error>) -> (result: Result<
    Vec<String>,
    Error,
>)
    ensures
        params.booster.learning.eval_metric.len() > 0 ==> result is Ok && words(result->Ok_0@) == words(
            params.booster.learning.eval_metric@,
        ),
        params.booster.learning.eval_metric.len() == 0 ==> match default_metric {
            Err(e) => result == Err::<Vec<String>, Error>(e),
            Ok(name) => result is Ok && words(result->Ok_0@) == (
            if params.booster.general.disable_default_eval_metric {
                Seq::empty()
            } else {
                seq![name@]
            }),
        },
{
    let metrics: &Vec<String> = &params.booster.learning.eval_metric;
    let mut names: Vec<String> = Vec::new();
    if metrics.len() == 0 {
        let default: String = match default_metric {
            Ok(name) => name,
            Err(e) => {
                return Err(e);
            },
        };
        if !params.booster.general.disable_default_eval_metric {
            let ghost name = default@;
            names.push(default);
            assert(words(names@) =~= seq![name]);
        }
        assert(params.booster.general.disable_default_eval_metric ==> words(names@) =~= Seq::empty());
        return Ok(names);
    }
    let mut i: usize = 0;
    while i < metrics.len()
        invariant
            *metrics == params.booster.learning.eval_metric,
            i <= metrics.len(),
            names.len() == i,
            forall|k: int| 0 <= k < i ==> (#[trigger] names[k])@ == metrics[k]@,
        decreases metrics.len() - i,
    {
        names.push(metrics[i].clone());
        i += 1;
    }
    assert(words(names@) =~= words(metrics@));
    Ok(names)
}

/// What a fit is checked for before it begins.
pub struct FitChecks<'a> {
    pub device: Device,
    /// The device as it was configured.
    pub device_name: &'a str,
    /// The tree settings, where trees are grown.
    pub tree: Option<&'a TreeBoosterParameters>,
    /// The pipeline they resolve to.
    pub updaters: &'a [TreeUpdaterName],
    pub has_categorical: bool,
    pub num_col: usize,
    /// The device kernels are built in.
    pub gpu: bool,
}

/// The device has kernels.
pub open spec fn device_runs(fit: &FitChecks) -> bool {
    fit.device is Cpu || (fit.gpu && !(fit.device is Sycl))
}

/// What is wrong with the tree options of a fit, if anything.
pub open spec fn fit_objection(fit: &FitChecks) -> Option<(Seq<char>, Seq<char>)> {
    match fit.tree {
        Some(tree) => option_objection(
            tree.multi_strategy == MultiStrategy::MultiOutputTree,
            fit.updaters@,
            fit.has_categorical,
            fit.gpu,
        ),
        None => None,
    }
}

/// The fit can be run.
pub open spec fn training_runs(fit: &FitChecks) -> bool {
    &&& device_runs(fit)
    &&& fit.tree matches Some(tree) ==> pipeline_runs(*tree, fit.updaters@, fit.gpu) && fit_objection(fit) is None
        && constraints_fit(*tree, fit.num_col)
}

/// Why a fit cannot be run, in the order it is looked for: the device, the pipeline, the tree
/// options, the constraints.
pub open spec fn training_error(fit: &FitChecks, e: Error) -> bool {
    if fit.device is Sycl {
        e.refuses(
            "device"@,
            "there is no SYCL updater in this build; got device `"@ + fit.device_name@ + "`"@,
        )
    } else if !device_runs(fit) {
        e.refuses(
            "device"@,
            "this build has no GPU kernels; rebuild with the `gpu` feature to use                  device `"@ + fit.device_name@ + "`"@,
        )
    } else {
        fit.tree matches Some(tree) && if !pipeline_runs(*tree, fit.updaters@, fit.gpu) {
            pipeline_error(fit.updaters@, fit.gpu, e)
        } else {
            match fit_objection(fit) {
                Some((name, reason)) => e.refuses(name, reason),
                None => constraint_error(*tree, fit.num_col, e),
            }
        }
    }
}

/// Refuse a fit that cannot be run: the device first, then the pipeline, the tree options and
/// the constraints.
pub fn check_training(fit: &FitChecks) -> (result: Result<(), Error>)
    ensures
        result is Ok <==> training_runs(fit),
        result matches Err(e) ==> training_error(fit, e),
{
    if fit.device.is_sycl() {
        let mut reason: String = "there is no SYCL updater in this build; got device `".to_owned();
        reason.append(fit.device_name);
        reason.append("`");
        return Err(Error::invalid("device", reason));
    }
    if !fit.gpu && !fit.device.is_cpu() {
        let mut reason: String =
            "this build has no GPU kernels; rebuild with the `gpu` feature to use                  device `".to_owned();
        reason.append(fit.device_name);
        reason.append("`");
        return Err(Error::invalid("device", reason));
    }
    match fit.tree {
        None => Ok(()),
        Some(tree) => {
            match check_supported_updater(tree, fit.updaters, fit.gpu) {
                Err(e) => {
                    return Err(e);
                },
                Ok(()) => {},
            }
            match check_supported_tree_options(tree, fit.updaters, fit.has_categorical, fit.gpu) {
                Err(e) => {
                    return Err(e);
                },
                Ok(()) => {},
            }
            check_feature_constraints(tree, fit.num_col)
        },
    }
}

/// An updating fit needs trees to revisit: without any every round would do nothing.
pub fn check_update(tree: &TreeBoosterParameters, has_trees: bool) -> (result: Result<(), Error>)
    ensures
        result is Ok <==> !(tree.process_type == crate::parameters::ProcessType::Update && !has_trees),
        result matches Err(e) ==> e.refuses(
            "process_type"@,
            "`update` revisits the trees an existing model holds; pass one to `api::train_from`, or use `process_type=default` to grow new trees"@,
        ),
{
    if tree.process_type == crate::parameters::ProcessType::Update && !has_trees {
        return Err(
            Error::invalid(
                "process_type",
                "`update` revisits the trees an existing model holds; pass one to `api::train_from`, or use `process_type=default` to grow new trees".to_owned(),
            ),
        );
    }
    Ok(())
}

/// The name a score is recorded under: the evaluation set and the metric.
pub fn score_name(set: &str, metric: &str) -> (name: String)
    ensures
        name@ == set@ + "-"@ + metric@,
{
    let mut name: String = set.to_owned();
    name.append("-");
    name.append(metric);
    name
}

/// What a feature's importance is measured by.
#[derive(Clone, Copy, Debug, PartialEq, Eq, Structural)]
pub enum Importance {
    /// Splits of the feature, or a linear model's coefficients.
    Weight,
    /// What its splits gain on average.
    Gain,
    /// What its splits gain together.
    TotalGain,
}

/// The importance a name asks for. A linear model defines only `weight`.
pub fn importance_kind(name: &str, linear: bool) -> (result: Result<Importance, Error>)
    ensures
        name@ == "weight"@ ==> result == Ok::<Importance, Error>(Importance::Weight),
        name@ != "weight"@ && linear ==> result is Err && result->Err_0.refuses(
            "importance_type"@,
            "`gblinear` defines only `weight` for feature importance, got `"@ + name@ + "`"@,
        ),
        name@ != "weight"@ && !linear && name@ == "gain"@ ==> result == Ok::<Importance, Error>(Importance::Gain),
        name@ != "weight"@ && !linear && name@ != "gain"@ && name@ == "total_gain"@ ==> result == Ok::<Importance, Error>(
            Importance::TotalGain,
        ),
        name@ != "weight"@ && !linear && name@ != "gain"@ && name@ != "total_gain"@ ==> result is Err
            && result->Err_0.refuses(
            "importance_type"@,
            "`"@ + name@ + "` is not supported; use weight, gain or total_gain"@,
        ),
{
    let asked: String = name.to_owned();
    if asked == "weight".to_owned() {
        return Ok(Importance::Weight);
    }
    if linear {
        let mut reason: String = "`gblinear` defines only `weight` for feature importance, got `".to_owned();
        reason.append(name);
        reason.append("`");
        return Err(Error::invalid("importance_type", reason));
    }
    if asked == "gain".to_owned() {
        return Ok(Importance::Gain);
    }
    if asked == "total_gain".to_owned() {
        return Ok(Importance::TotalGain);
    }
    let mut reason: String = "`".to_owned();
    reason.append(name);
    reason.append("` is not supported; use weight, gain or total_gain");
    Err(Error::invalid("importance_type", reason))
}

/// The key a feature's importance is reported under; with several groups, of which one.
pub fn importance_key(f: u64, group: u64, n_groups: usize) -> (key: String)
    ensures
        key@ == (if n_groups == 1 {
            "f"@ + decimal(f as nat)
        } else {
            "f"@ + decimal(f as nat) + "-"@ + decimal(group as nat)
        }),
{
    let mut key: String = "f".to_owned();
    key.append(crate::text::decimal_text(f).as_str());
    if n_groups != 1 {
        key.append("-");
        key.append(crate::text::decimal_text(group).as_str());
    }
    key
}

/// How often each feature is split on.
pub open spec fn split_count(splits: Seq<u32>, f: u32, n: int) -> int
    decreases n,
{
    if n <= 0 {
        0
    } else {
        split_count(splits, f, n - 1) + (if splits[n - 1] == f {
            1int
        } else {
            0
        })
    }
}

/// The features that some split is on, in ascending order, each with how many are.
pub fn split_counts(splits: &[u32], num_feature: u32) -> (counts: Vec<(u32, u64)>)
    requires
        forall|i: int| 0 <= i < splits.len() ==> #[trigger] splits[i] < num_feature,
    ensures
        forall|k: int|
            0 <= k < counts.len() ==> (#[trigger] counts[k]).1 == split_count(
                splits@,
                counts[k].0,
                splits.len() as int,
            ) && counts[k].1 > 0,
        forall|j: int, k: int| 0 <= j < k < counts.len() ==> (#[trigger] counts[j]).0 < (#[trigger] counts[k]).0,
        forall|i: int|
            0 <= i < splits.len() ==> exists|k: int| 0 <= k < counts.len() && (#[trigger] counts[k]).0 == #[trigger] splits[i],
{
    let mut per: Vec<u64> = vec![0u64; num_feature as usize];
    let mut i: usize = 0;
    while i < splits.len()
        invariant
            forall|i: int| 0 <= i < splits.len() ==> #[trigger] splits[i] < num_feature,
            per.len() == num_feature,
            i <= splits.len(),
            forall|f: u32| f < num_feature ==> #[trigger] per[f as int] == split_count(splits@, f, i as int),
            forall|f: u32| f < num_feature ==> #[trigger] per[f as int] <= i,
            forall|j: int| 0 <= j < i ==> per[(#[trigger] splits[j]) as int] > 0,
        decreases splits.len() - i,
    {
        let f: u32 = splits[i];
        assert(splits[i as int] < num_feature);
        assert(per[f as int] <= i);
        let ghost was = per@;
        let seen: u64 = per[f as usize];
        per.set(f as usize, seen + 1);
        proof {
            assert forall|g: u32| g < num_feature implies #[trigger] per[g as int] == split_count(splits@, g, i + 1)
                && per[g as int] <= i + 1 by {
                assert(was[g as int] == split_count(splits@, g, i as int));
            }
            assert forall|j: int| 0 <= j < i + 1 implies per[(#[trigger] splits[j]) as int] > 0 by {
                assert(splits[j] < num_feature);
                if j < i {
                    assert(was[splits[j] as int] > 0);
                }
            }
        }
        i += 1;
    }
    let mut counts: Vec<(u32, u64)> = Vec::new();
    let mut f: u32 = 0;
    while f < num_feature
        invariant
            per.len() == num_feature,
            f <= num_feature,
            forall|f: u32| f < num_feature ==> #[trigger] per[f as int] == split_count(splits@, f, splits.len() as int),
            forall|k: int|
                0 <= k < counts.len() ==> (#[trigger] counts[k]).1 == split_count(
                    splits@,
                    counts[k].0,
                    splits.len() as int,
                ) && counts[k].1 > 0 && counts[k].0 < f,
            forall|j: int, k: int| 0 <= j < k < counts.len() ==> (#[trigger] counts[j]).0 < (#[trigger] counts[k]).0,
            forall|g: u32|
                g < f && #[trigger] per[g as int] > 0 ==> exists|k: int|
                    0 <= k < counts.len() && (#[trigger] counts[k]).0 == g,
        decreases num_feature - f,
    {
        let n: u64 = per[f as usize];
        let ghost was = counts@;
        if n > 0 {
            counts.push((f, n));
        }
        proof {
            assert forall|g: u32| g < f + 1 && #[trigger] per[g as int] > 0 implies exists|k: int|
                0 <= k < counts.len() && (#[trigger] counts[k]).0 == g by {
                if g < f {
                    let k = choose|k: int| 0 <= k < was.len() && (#[trigger] was[k]).0 == g;
                    assert(counts[k].0 == g);
                } else {
                    assert(counts[counts.len() - 1].0 == g);
                }
            }
        }
        f += 1;
    }
    proof {
        assert forall|i: int| 0 <= i < splits.len() implies exists|k: int|
            0 <= k < counts.len() && (#[trigger] counts[k]).0 == #[trigger] splits[i] by {
            assert(splits[i] < num_feature);
            assert(per[splits[i] as int] > 0);
        }
    }
    counts
}

/// With a strict shape every prediction has the full rank of its kind, whatever the model.
pub proof fn lemma_strict_rank(kind: PredictionType, s: ShapeInputs)
    ensures
        tree_shape_of(kind, true, s).len() == (match kind {
            PredictionType::Value | PredictionType::Margin => 2int,
            PredictionType::Contribution | PredictionType::ApproxContribution => 3,
            _ => 4,
        }),
        tree_shape_of(kind, true, s)[0] == s.n_rows,
{
}

/// A shape that is not strict names as many values as the strict one: only dimensions of one
/// are left out.
pub proof fn lemma_shapes_agree(kind: PredictionType, s: ShapeInputs)
    requires
        !(kind is Leaf),
        s.n_groups >= 1,
        s.stride >= 1,
    ensures
        product(tree_shape_of(kind, false, s), 0, tree_shape_of(kind, false, s).len() as int) == product(
            tree_shape_of(kind, true, s),
            0,
            tree_shape_of(kind, true, s).len() as int,
        ),
{
    reveal_with_fuel(product, 6);
    let r = s.n_rows as int;
    let w = (s.n_features + 1) as usize as int;
    assert(r * 1 * w == r * w && r * 1 * w * w == r * w * w && 1 * r * 1 == 1 * r) by (nonlinear_arith);
    assert(1 * r * 1 * w == 1 * r * w && 1 * r * 1 * w * w == 1 * r * w * w) by (nonlinear_arith);
}

/// Early stopping ends a fit once the score has not improved for as many rounds as were
/// allowed, and not before: the rounds since the last improvement are counted exactly.
pub proof fn lemma_patience(s: EarlyStopping, iter: usize, score: u64)
    requires
        s.since_improvement < u32::MAX,
    ensures
        s.improves(score) ==> s.after(iter, score).since_improvement == 0 && s.after(iter, score).best_iteration == iter
            && s.after(iter, score).best_score == score,
        !s.improves(score) ==> s.after(iter, score).since_improvement == s.since_improvement + 1 && s.after(
            iter,
            score,
        ).best_iteration == s.best_iteration && s.after(iter, score).best_score == s.best_score,
{
}

/// What a run of scores, one per round from the first, makes of a tracker.
pub open spec fn watched_over(start: EarlyStopping, scores: Seq<u64>) -> EarlyStopping
    decreases scores.len(),
{
    if scores.len() == 0 {
        start
    } else {
        watched_over(start, scores.drop_last()).after((scores.len() - 1) as usize, scores.last())
    }
}

/// A score beats another one.
pub open spec fn beats(maximize: bool, a: u64, b: u64) -> bool {
    if maximize {
        wide_lt_spec(b, a)
    } else {
        wide_lt_spec(a, b)
    }
}

/// Over all rounds of a fit, the best round is the first with the best score: no round beats
/// it, and it beats every round before it. The fit ends with the first round that comes as many
/// rounds after the best as were allowed.
pub proof fn lemma_best_round(start: EarlyStopping, scores: Seq<u64>)
    requires
        !start.started,
        start.since_improvement == 0,
        0 < scores.len() < u32::MAX,
        forall|i: int| 0 <= i < scores.len() ==> !wide_is_nan(#[trigger] scores[i]),
    ensures
        ({
            let now = watched_over(start, scores);
            let best = now.best_iteration as int;
            &&& now.started
            &&& now.rounds == start.rounds
            &&& now.maximize == start.maximize
            &&& now.watched == start.watched
            &&& 0 <= best < scores.len()
            &&& now.best_score == scores[best]
            &&& forall|i: int| 0 <= i < scores.len() ==> !beats(start.maximize, #[trigger] scores[i], scores[best])
            &&& forall|i: int| 0 <= i < best ==> beats(start.maximize, scores[best], #[trigger] scores[i])
            &&& now.since_improvement == scores.len() - 1 - best
            &&& now.since_improvement >= now.rounds <==> scores.len() - 1 - best >= start.rounds
        }),
    decreases scores.len(),
{
    let now = watched_over(start, scores);
    let head = scores.drop_last();
    let was = watched_over(start, head);
    let k = scores.len() - 1;
    assert(now == was.after(k as usize, scores[k]));
    if head.len() > 0 {
        assert forall|i: int| 0 <= i < head.len() implies !wide_is_nan(#[trigger] head[i]) by {
            assert(head[i] == scores[i]);
        }
        lemma_best_round(start, head);
        let old_best = was.best_iteration as int;
        assert(head[old_best] == scores[old_best]);
        let best = now.best_iteration as int;
        assert forall|i: int| 0 <= i < scores.len() implies !beats(start.maximize, #[trigger] scores[i], scores[best]) by {
            if i < k {
                assert(head[i] == scores[i]);
                assert(!beats(start.maximize, head[i], head[old_best]));
            }
        }
        assert forall|i: int| 0 <= i < best implies beats(start.maximize, scores[best], #[trigger] scores[i]) by {
            assert(head[i] == scores[i]);
            assert(!beats(start.maximize, head[i], head[old_best]));
        }
    } else {
        assert(was == start);
    }
}

/// Every dimension of a shape is what it is named after. A value prediction has the stride, and a
/// margin the groups, as its width; a strict leaf prediction has the rounds, the groups and the
/// parallel trees; contributions end in one column per feature and one for the bias, and
/// interactions in two such dimensions.
pub proof fn lemma_shape_dimensions(kind: PredictionType, strict: bool, s: ShapeInputs)
    requires
        s.n_features < usize::MAX,
    ensures
        ({
            let shape = tree_shape_of(kind, strict, s);
            let last = shape.len() - 1;
            &&& shape.len() >= 1 && shape[0] == s.n_rows
            &&& kind is Value && (strict || s.stride > 1) ==> shape.len() == 2 && shape[1] == s.stride
            &&& kind is Margin && (strict || s.n_groups > 1) ==> shape.len() == 2 && shape[1] == s.n_groups
            &&& kind is Value && !strict && s.stride <= 1 ==> shape.len() == 1
            &&& kind is Margin && !strict && s.n_groups <= 1 ==> shape.len() == 1
            &&& kind is Leaf && !strict ==> shape.len() == 2 && shape[1] == s.leaves
            &&& kind is Leaf && strict ==> shape.len() == 4 && shape[1] == s.rounds && shape[2] == s.n_groups && (
            s.num_parallel_tree > 0 ==> shape[3] == s.num_parallel_tree) && (s.num_parallel_tree == 0 ==> shape[3]
                == 1)
            &&& kind is Contribution || kind is ApproxContribution ==> shape[last] == s.n_features + 1 && (if strict
                || s.n_groups > 1 {
                shape.len() == 3 && shape[1] == s.n_groups
            } else {
                shape.len() == 2
            })
            &&& kind is Interaction || kind is ApproxInteraction ==> shape[last] == s.n_features + 1 && shape[last - 1]
                == s.n_features + 1 && (if strict || s.n_groups > 1 {
                shape.len() == 4 && shape[1] == s.n_groups
            } else {
                shape.len() == 3
            })
        }),
{
}

/// One more dimension multiplies the product by its length; no dimensions make one.
pub proof fn lemma_product(shape: Seq<usize>, n: usize)
    ensures
        product(shape, 0, 0) == 1,
        product(shape, 1, 1) == 1,
        shape.len() >= 1 ==> product(shape.push(n), 1, shape.len() as int + 1) == product(shape, 1, shape.len() as int)
            * n,
{
    lemma_product_same(shape, shape.push(n), 1, shape.len() as int);
}

proof fn lemma_product_same(a: Seq<usize>, b: Seq<usize>, from: int, to: int)
    requires
        forall|i: int| from <= i < to ==> a[i] == b[i],
    ensures
        product(a, from, to) == product(b, from, to),
    decreases to - from,
{
    if from < to {
        lemma_product_same(a, b, from, to - 1);
    }
}

/// The interactions of a row and group fill a square row by row, and the squares follow one another.
pub proof fn lemma_interactions_follow(width: int, slot: int, i: int, j: int)
    ensures
        interaction_at(width, 0, 0, 0) == 0,
        interaction_at(width, slot, i, j + 1) == interaction_at(width, slot, i, j) + 1,
        interaction_at(width, slot, i + 1, 0) == interaction_at(width, slot, i, width),
        interaction_at(width, slot + 1, 0, 0) == interaction_at(width, slot, width, 0),
{
    assert((i + 1) * width == i * width + width) by (nonlinear_arith);
    assert((slot + 1) * width * width == slot * width * width + width * width) by (nonlinear_arith);
    assert(0 * width * width == 0) by (nonlinear_arith);
}

/// A text begins with every text it was lengthened from, and what it begins with it agrees with.
pub proof fn lemma_begins(prefix: Seq<char>, rest: Seq<char>, s: Seq<char>)
    ensures
        begins_with(prefix + rest, prefix),
        begins_with(s, prefix) ==> prefix.len() <= s.len() && forall|i: int|
            0 <= i < prefix.len() ==> #[trigger] s[i] == prefix[i],
{
    assert((prefix + rest).subrange(0, prefix.len() as int) =~= prefix);
    if begins_with(s, prefix) {
        assert forall|i: int| 0 <= i < prefix.len() implies #[trigger] s[i] == prefix[i] by {
            assert(s.subrange(0, prefix.len() as int)[i] == s[i]);
        }
    }
}

/// Whatever follows the name of a ranking metric, an area under a curve or an accuracy, more of it
/// is better; `mape`, an error, is the exception.
pub proof fn lemma_maximised(rest: Seq<char>)
    ensures
        maximised("auc"@ + rest),
        maximised("pre"@ + rest),
        maximised("ndcg"@ + rest),
        maximised("ams"@ + rest),
        maximised("interval-regression-accuracy"@ + rest),
        maximised("map"@ + rest) <==> rest != seq!['e'],
{
    lemma_begins("auc"@, rest, rest);
    lemma_begins("pre"@, rest, rest);
    lemma_begins("ndcg"@, rest, rest);
    lemma_begins("ams"@, rest, rest);
    lemma_begins("interval-regression-accuracy"@, rest, rest);
    lemma_begins("map"@, rest, rest);
    reveal_strlit("auc");
    reveal_strlit("pre");
    reveal_strlit("ndcg");
    reveal_strlit("ams");
    reveal_strlit("interval-regression-accuracy");
    reveal_strlit("map");
    reveal_strlit("mape");
    assert("mape"@[0] == 'm');
    assert(("auc"@ + rest)[0] == 'a');
    assert(("pre"@ + rest)[0] == 'p');
    assert(("ndcg"@ + rest)[0] == 'n');
    assert(("ams"@ + rest)[0] == 'a');
    assert(("interval-regression-accuracy"@ + rest)[0] == 'i');
    let m = "map"@ + rest;
    if m == "mape"@ {
        assert(rest.len() == 1);
        assert(m[3] == rest[0]);
        assert(rest =~= seq!['e']);
    }
    if rest == seq!['e'] {
        assert(m =~= "mape"@);
    }
}

/// Whatever follows the name of an error, a loss or a likelihood, less of it is better.
pub proof fn lemma_minimised(rest: Seq<char>)
    ensures
        !maximised("rmse"@ + rest),
        !maximised("mae"@ + rest),
        !maximised("mphe"@ + rest),
        !maximised("logloss"@ + rest),
        !maximised("error"@ + rest),
        !maximised("merror"@ + rest),
        !maximised("mlogloss"@ + rest),
        !maximised("poisson-nloglik"@ + rest),
        !maximised("gamma-deviance"@ + rest),
        !maximised("tweedie-nloglik"@ + rest),
        !maximised("quantile"@ + rest),
        !maximised("cox-nloglik"@ + rest),
        !maximised("aft-nloglik"@ + rest),
{
    reveal_strlit("rmse");
    reveal_strlit("mae");
    reveal_strlit("mphe");
    reveal_strlit("logloss");
    reveal_strlit("error");
    reveal_strlit("merror");
    reveal_strlit("mlogloss");
    reveal_strlit("poisson-nloglik");
    reveal_strlit("gamma-deviance");
    reveal_strlit("tweedie-nloglik");
    reveal_strlit("quantile");
    reveal_strlit("cox-nloglik");
    reveal_strlit("aft-nloglik");
    lemma_minimised_by("rmse"@, rest);
    lemma_minimised_by("mae"@, rest);
    lemma_minimised_by("mphe"@, rest);
    lemma_minimised_by("logloss"@, rest);
    lemma_minimised_by("error"@, rest);
    lemma_minimised_by("merror"@, rest);
    lemma_minimised_by("mlogloss"@, rest);
    lemma_minimised_by("poisson-nloglik"@, rest);
    lemma_minimised_by("gamma-deviance"@, rest);
    lemma_minimised_by("tweedie-nloglik"@, rest);
    lemma_minimised_by("quantile"@, rest);
    lemma_minimised_by("cox-nloglik"@, rest);
    lemma_minimised_by("aft-nloglik"@, rest);
}

proof fn lemma_minimised_by(name: Seq<char>, rest: Seq<char>)
    requires
        name.len() >= 3,
        name[0] == 'a' ==> name[1] != 'u' && name[1] != 'm',
        name[0] == 'p' ==> name[1] != 'r',
        name[0] == 'm' ==> name[1] != 'a' || name[2] != 'p',
        name[0] != 'n' && name[0] != 'i',
    ensures
        !maximised(name + rest),
{
    reveal_strlit("auc");
    reveal_strlit("aucpr");
    reveal_strlit("pre");
    reveal_strlit("ndcg");
    reveal_strlit("ams");
    reveal_strlit("interval-regression-accuracy");
    reveal_strlit("map");
    let s = name + rest;
    assert(s[0] == name[0] && s[1] == name[1] && s[2] == name[2]);
    lemma_begins("auc"@, rest, s);
    lemma_begins("aucpr"@, rest, s);
    lemma_begins("pre"@, rest, s);
    lemma_begins("ndcg"@, rest, s);
    lemma_begins("ams"@, rest, s);
    lemma_begins("interval-regression-accuracy"@, rest, s);
    lemma_begins("map"@, rest, s);
    assert("auc"@[0] == 'a' && "auc"@[1] == 'u');
    assert("aucpr"@[0] == 'a' && "aucpr"@[1] == 'u');
    assert("pre"@[0] == 'p' && "pre"@[1] == 'r');
    assert("ndcg"@[0] == 'n');
    assert("ams"@[0] == 'a' && "ams"@[1] == 'm');
    assert("interval-regression-accuracy"@[0] == 'i');
    assert("map"@[0] == 'm' && "map"@[1] == 'a' && "map"@[2] == 'p');
}

/// A larger score replaces the best one where more is better and a smaller one where less is; a
/// score that is no better, or no number, leaves the best one standing.
pub proof fn lemma_better_score(s: EarlyStopping, iter: usize, score: u64)
    requires
        s.since_improvement < u32::MAX,
    ensures
        ({
            let now = s.after(iter, score);
            let better = !s.started || (!wide_is_nan(score) && !wide_is_nan(s.best_score) && (if s.maximize {
                wide_rank(score) > wide_rank(s.best_score)
            } else {
                wide_rank(score) < wide_rank(s.best_score)
            }));
            &&& now.started
            &&& now.maximize == s.maximize && now.rounds == s.rounds && now.watched == s.watched
            &&& better ==> now.best_score == score && now.best_iteration == iter && now.since_improvement == 0
            &&& !better ==> now.best_score == s.best_score && now.best_iteration == s.best_iteration
                && now.since_improvement == s.since_improvement + 1
        }),
{
}

/// Over the rounds of a fit the best score is the largest where more is better and the smallest
/// where less is.
pub proof fn lemma_best_score(start: EarlyStopping, scores: Seq<u64>, i: int)
    requires
        !start.started,
        start.since_improvement == 0,
        0 <= i < scores.len() < u32::MAX,
        forall|i: int| 0 <= i < scores.len() ==> !wide_is_nan(#[trigger] scores[i]),
    ensures
        scores.contains(watched_over(start, scores).best_score),
        start.maximize ==> wide_rank(scores[i]) <= wide_rank(watched_over(start, scores).best_score),
        !start.maximize ==> wide_rank(scores[i]) >= wide_rank(watched_over(start, scores).best_score),
{
    lemma_best_round(start, scores);
    let best = watched_over(start, scores).best_iteration as int;
    assert(!beats(start.maximize, scores[i], scores[best]));
    assert(!wide_is_nan(scores[i]) && !wide_is_nan(scores[best]));
}

/// The constraints fit exactly where there are no more monotone ones than columns and every feature
/// of an interaction group is a column; where they fit a matrix they fit a wider one.
pub proof fn lemma_constraints_fit(tree: TreeBoosterParameters, num_col: usize, wider: usize)
    requires
        num_col <= wider,
    ensures
        constraints_fit(tree, num_col) ==> constraints_fit(tree, wider),
        constraints_fit(tree, num_col) <==> tree.monotone_constraints.len() <= num_col && (
        tree.interaction_constraints matches Some(groups) ==> forall|g: int, k: int|
            0 <= g < groups.len() && 0 <= k < groups[g].len() ==> #[trigger] groups[g][k] < num_col),
{
    if constraints_fit(tree, num_col) {
        if let Some(groups) = tree.interaction_constraints {
            assert forall|g: int, k: int| 0 <= g < groups@.len() && 0 <= k < groups@[g].len() implies #[trigger] groups@[g][k]
                < wider by {
                assert(groups@[g][k] < num_col);
            }
        }
    }
}

/// A pipeline of host growers, refreshes and prunings can be run anywhere and one that synchronises
/// or grows approximately on the device nowhere; the device's histogram grower takes its kernels,
/// and the exact grower a depth.
pub proof fn lemma_pipelines(tree: TreeBoosterParameters, updaters: Seq<TreeUpdaterName>, gpu: bool, i: int)
    requires
        0 <= i < updaters.len(),
    ensures
        updaters[i] is Sync || updaters[i] is GrowGpuApprox ==> !pipeline_runs(tree, updaters, gpu),
        updaters[i] is GrowGpuHist && !gpu ==> !pipeline_runs(tree, updaters, gpu),
        updaters[i] is GrowColMaker && tree.max_depth == 0 ==> !pipeline_runs(tree, updaters, gpu),
        tree.max_depth > 0 && (forall|j: int|
            0 <= j < updaters.len() ==> !((#[trigger] updaters[j]) is Sync) && !(updaters[j] is GrowGpuApprox) && (gpu
                || !(updaters[j] is GrowGpuHist))) ==> pipeline_runs(tree, updaters, gpu),
        pipeline_runs(tree, updaters, false) ==> pipeline_runs(tree, updaters, true),
{
    assert(updaters.contains(updaters[i]));
    if pipeline_runs(tree, updaters, gpu) {
        assert(implemented(updaters[i], gpu));
    }
    if pipeline_runs(tree, updaters, false) {
        assert forall|j: int| 0 <= j < updaters.len() implies implemented(#[trigger] updaters[j], true) by {
            assert(implemented(updaters[j], false));
        }
    }
}

/// One tree for every output is grown by a histogram grower alone and on numbers alone, and the
/// exact grower takes no categories; nothing else is objected to.
pub proof fn lemma_options(multi: bool, updaters: Seq<TreeUpdaterName>, has_categorical: bool, gpu: bool)
    ensures
        option_objection(multi, updaters, has_categorical, gpu) is None <==> {
            &&& multi ==> !has_categorical && updaters.len() == 1 && (updaters[0] is GrowQuantileHistMaker || (gpu
                && updaters[0] is GrowGpuHist))
            &&& has_categorical ==> forall|i: int| 0 <= i < updaters.len() ==> !((#[trigger] updaters[i]) is GrowColMaker)
        },
        option_objection(multi, updaters, has_categorical, gpu) matches Some((name, _)) ==> name == (if multi {
            "multi_strategy"@
        } else {
            "tree_method"@
        }),
{
    let exact = TreeUpdaterName::GrowColMaker;
    if updaters.len() == 1 {
        assert(updaters =~= seq![updaters[0]]);
    }
    if forall|i: int| 0 <= i < updaters.len() ==> !((#[trigger] updaters[i]) is GrowColMaker) {
        assert(!updaters.contains(exact));
    } else {
        let i = choose|i: int| 0 <= i < updaters.len() && (#[trigger] updaters[i]) is GrowColMaker;
        assert(updaters[i] == exact);
        assert(updaters.contains(exact));
    }
}

/// A setting is listed as unused where it was moved from its default and nothing reads it: those
/// of the exact grower without that grower, the bins with it, the refreshing of leaves without a
/// refresh, those on categories without categories, and the sparse threshold without a histogram
/// grower of the host.
pub proof fn lemma_unused_listed(
    tree: TreeBoosterParameters,
    default: TreeBoosterParameters,
    updaters: Seq<TreeUpdaterName>,
    has_categorical: bool,
)
    ensures
        ({
            let list = unused_in_tree(tree, default, updaters, has_categorical);
            let exact = updaters.contains(TreeUpdaterName::GrowColMaker);
            let hist = updaters.contains(TreeUpdaterName::GrowQuantileHistMaker) || updaters.contains(
                TreeUpdaterName::GrowHistMaker,
            );
            &&& !exact && tree.default_direction != default.default_direction ==> list.contains("default_direction"@)
            &&& !exact && !same_spec(tree.opt_dense_col, default.opt_dense_col) ==> list.contains("opt_dense_col"@)
            &&& exact && tree.max_bin != default.max_bin ==> list.contains("max_bin"@)
            &&& !updaters.contains(TreeUpdaterName::Refresh) && tree.refresh_leaf != default.refresh_leaf
                ==> list.contains("refresh_leaf"@)
            &&& !has_categorical && tree.max_cat_to_onehot != default.max_cat_to_onehot ==> list.contains(
                "max_cat_to_onehot"@,
            )
            &&& !has_categorical && tree.max_cat_threshold != default.max_cat_threshold ==> list.contains(
                "max_cat_threshold"@,
            )
            &&& tree.debug_synchronize ==> list.contains("debug_synchronize"@)
            &&& !hist && !wide_same_spec(tree.sparse_threshold, default.sparse_threshold) ==> list.contains(
                "sparse_threshold"@,
            )
        }),
{
    let exact = runs(updaters, TreeUpdaterName::GrowColMaker);
    let refresh = runs(updaters, TreeUpdaterName::Refresh);
    let hist = runs(updaters, TreeUpdaterName::GrowQuantileHistMaker) || runs(updaters, TreeUpdaterName::GrowHistMaker);
    let none = Seq::<Seq<char>>::empty();
    let c1 = !exact && tree.default_direction != default.default_direction;
    let c2 = !exact && !same_spec(tree.opt_dense_col, default.opt_dense_col);
    let c3 = exact && tree.max_bin != default.max_bin;
    let c4 = !refresh && tree.refresh_leaf != default.refresh_leaf;
    let c5 = !has_categorical && tree.max_cat_to_onehot != default.max_cat_to_onehot;
    let c6 = !has_categorical && tree.max_cat_threshold != default.max_cat_threshold;
    let c8 = !hist && !wide_same_spec(tree.sparse_threshold, default.sparse_threshold);
    let a = listed_if(none, c1, "default_direction"@);
    let b = listed_if(a, c2, "opt_dense_col"@);
    let c = listed_if(b, c3, "max_bin"@);
    let d = listed_if(c, c4, "refresh_leaf"@);
    let e = listed_if(d, c5, "max_cat_to_onehot"@);
    let f = listed_if(e, c6, "max_cat_threshold"@);
    let g = listed_if(f, tree.debug_synchronize, "debug_synchronize"@);
    lemma_listed(none, c1, "default_direction"@);
    lemma_listed(a, c2, "opt_dense_col"@);
    lemma_listed(b, c3, "max_bin"@);
    lemma_listed(c, c4, "refresh_leaf"@);
    lemma_listed(d, c5, "max_cat_to_onehot"@);
    lemma_listed(e, c6, "max_cat_threshold"@);
    lemma_listed(f, tree.debug_synchronize, "debug_synchronize"@);
    lemma_listed(g, c8, "sparse_threshold"@);
}

proof fn lemma_listed(list: Seq<Seq<char>>, condition: bool, name: Seq<char>)
    ensures
        condition ==> listed_if(list, condition, name).contains(name),
        forall|w: Seq<char>| list.contains(w) ==> #[trigger] listed_if(list, condition, name).contains(w),
        listed_if(list, condition, name).len() == list.len() + (if condition { 1int } else { 0 }),
{
    let longer = list.push(name);
    assert(longer[list.len() as int] == name);
    assert forall|w: Seq<char>| list.contains(w) implies #[trigger] listed_if(list, condition, name).contains(w) by {
        let k = choose|k: int| 0 <= k < list.len() && list[k] == w;
        assert(longer[k] == w);
    }
}

/// Nothing is listed that was left at its default, and nothing that the fit reads: with every
/// setting as it is by default no tree setting is listed, and otherwise no more than were moved.
pub proof fn lemma_unused_moved(
    tree: TreeBoosterParameters,
    default: TreeBoosterParameters,
    updaters: Seq<TreeUpdaterName>,
    has_categorical: bool,
)
    ensures
        ({
            let list = unused_in_tree(tree, default, updaters, has_categorical);
            let exact = updaters.contains(TreeUpdaterName::GrowColMaker);
            let hist = updaters.contains(TreeUpdaterName::GrowQuantileHistMaker) || updaters.contains(
                TreeUpdaterName::GrowHistMaker,
            );
            list.len() == (if !exact && tree.default_direction != default.default_direction { 1int } else { 0 }) + (
            if !exact && !same_spec(tree.opt_dense_col, default.opt_dense_col) { 1int } else { 0 }) + (if exact
                && tree.max_bin != default.max_bin { 1int } else { 0 }) + (if !updaters.contains(
                TreeUpdaterName::Refresh,
            ) && tree.refresh_leaf != default.refresh_leaf { 1int } else { 0 }) + (if !has_categorical
                && tree.max_cat_to_onehot != default.max_cat_to_onehot { 1int } else { 0 }) + (if !has_categorical
                && tree.max_cat_threshold != default.max_cat_threshold { 1int } else { 0 }) + (
            if tree.debug_synchronize { 1int } else { 0 }) + (if !hist && !wide_same_spec(
                tree.sparse_threshold,
                default.sparse_threshold,
            ) { 1int } else { 0 })
        }),
{
}

/// The two general settings that nothing reads are listed where they were set, after those of the
/// trees, and a fit without trees lists none of theirs.
pub proof fn lemma_unused_general(
    general: GeneralParameters,
    tree: Option<TreeBoosterParameters>,
    default: TreeBoosterParameters,
    updaters: Seq<TreeUpdaterName>,
    has_categorical: bool,
)
    ensures
        ({
            let list = unused_of(general, tree, default, updaters, has_categorical);
            let trees = match tree {
                Some(t) => unused_in_tree(t, default, updaters, has_categorical),
                None => Seq::empty(),
            };
            &&& list.len() == trees.len() + (if general.use_rmm { 1int } else { 0 }) + (
            if general.fail_on_invalid_gpu_id { 1int } else { 0 })
            &&& forall|i: int| 0 <= i < trees.len() ==> #[trigger] list[i] == trees[i]
            &&& general.use_rmm ==> list[trees.len() as int] == "use_rmm"@
            &&& general.fail_on_invalid_gpu_id ==> list.last() == "fail_on_invalid_gpu_id"@
        }),
{
}

/// A split on a feature adds one to that feature's count and nothing to any other's.
pub proof fn lemma_split_counted(splits: Seq<u32>, f: u32, g: u32)
    ensures
        split_count(Seq::empty(), f, 0) == 0,
        split_count(splits.push(f), f, splits.len() as int + 1) == split_count(splits, f, splits.len() as int) + 1,
        g != f ==> split_count(splits.push(f), g, splits.len() as int + 1) == split_count(
            splits,
            g,
            splits.len() as int,
        ),
{
    lemma_split_count_same(splits, splits.push(f), f, splits.len() as int);
    lemma_split_count_same(splits, splits.push(f), g, splits.len() as int);
}

proof fn lemma_split_count_same(a: Seq<u32>, b: Seq<u32>, f: u32, n: int)
    requires
        forall|i: int| 0 <= i < n ==> a[i] == b[i],
    ensures
        split_count(a, f, n) == split_count(b, f, n),
    decreases n,
{
    if n > 0 {
        lemma_split_count_same(a, b, f, n - 1);
    }
}

/// A fit on the processor is never refused for its device, one on a SYCL device always is, and one
/// on another device is without the kernels. A fit without trees is refused for nothing else.
pub proof fn lemma_devices(fit: &FitChecks)
    ensures
        fit.device is Cpu ==> device_runs(fit),
        fit.device is Sycl ==> !device_runs(fit) && !training_runs(fit),
        fit.device is Cuda || fit.device is Gpu ==> (device_runs(fit) <==> fit.gpu),
        fit.tree is None ==> (training_runs(fit) <==> device_runs(fit)),
        training_runs(fit) ==> device_runs(fit),
        fit.tree matches Some(tree) ==> (training_runs(fit) ==> tree.monotone_constraints.len() <= fit.num_col
            && pipeline_runs(*tree, fit.updaters@, fit.gpu) && option_objection(
            tree.multi_strategy is MultiOutputTree,
            fit.updaters@,
            fit.has_categorical,
            fit.gpu,
        ) is None),
        fit.tree matches Some(tree) ==> (device_runs(fit) && pipeline_runs(*tree, fit.updaters@, fit.gpu)
            && constraints_fit(*tree, fit.num_col) && option_objection(
            tree.multi_strategy is MultiOutputTree,
            fit.updaters@,
            fit.has_categorical,
            fit.gpu,
        ) is None ==> training_runs(fit)),
{
}

/// A fit that is refused is refused for one parameter: the device where there are no kernels for it,
/// the updaters or the depth where the pipeline cannot be run, the strategy or the method where the
/// tree options cannot be acted on, and the constraints where they do not fit.
pub proof fn lemma_refused_for(fit: &FitChecks, e: Error)
    requires
        !training_runs(fit),
        training_error(fit, e),
    ensures
        e is InvalidParameter,
        !device_runs(fit) ==> e->InvalidParameter_name@ == "device"@,
        device_runs(fit) && (fit.tree matches Some(tree) && !pipeline_runs(*tree, fit.updaters@, fit.gpu))
            ==> e->InvalidParameter_name@ == (if all_implemented(fit.updaters@, fit.gpu) {
            "max_depth"@
        } else {
            "updater"@
        }),
        device_runs(fit) && (fit.tree matches Some(tree) && pipeline_runs(*tree, fit.updaters@, fit.gpu)
            && option_objection(
            tree.multi_strategy is MultiOutputTree,
            fit.updaters@,
            fit.has_categorical,
            fit.gpu,
        ) is None && tree.monotone_constraints.len() > fit.num_col) ==> e->InvalidParameter_name@
            == "monotone_constraints"@,
        device_runs(fit) && (fit.tree matches Some(tree) && pipeline_runs(*tree, fit.updaters@, fit.gpu)
            && option_objection(
            tree.multi_strategy is MultiOutputTree,
            fit.updaters@,
            fit.has_categorical,
            fit.gpu,
        ) is None && tree.monotone_constraints.len() <= fit.num_col) ==> e->InvalidParameter_name@
            == "interaction_constraints"@,
{
}

/// The feature that a constraint is refused for is the first that does not exist.
pub proof fn lemma_first_stray(groups: Seq<Vec<u32>>, num_col: int, g: int, k: int, h: int, j: int)
    requires
        stray_feature(groups, num_col, g, k),
        0 <= h < groups.len(),
        0 <= j < groups[h].len(),
        groups[h][j] >= num_col,
    ensures
        g < h || (g == h && k <= j),
        !features_exist(groups, num_col),
{
    if h < g {
        assert(groups[h][j] < num_col);
    } else if h == g && j < k {
        assert(groups[g][j] < num_col);
    }
    assert(groups[g][k] >= num_col);
}

} // verus!
