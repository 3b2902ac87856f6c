//! A trained model as its users see it: what it holds, and what a prediction with it takes.

use vstd::prelude::*;

use crate::api::{
    check_features, linear_shape, tree_shape, tree_shape_of, Prediction, ShapeInputs,
};
use crate::context::{iteration_seed, round_seed};
use crate::error::Error;
use crate::gbm::{at_least_one, GBTree};
use crate::learner::{Learner, TreeRange};
use crate::parameters::{IterationRange, PredictParameters, PredictionType};
use crate::text::decimal;

verus! {

/// A trained model.
#[derive(Clone, Debug)]
pub struct Booster<T> {
    pub learner: Learner<T>,
    /// The round with the best score on the watch list, where early stopping was on.
    pub best_iteration: Option<usize>,
    /// That score, as a double-precision bit pattern.
    pub best_score: Option<u64>,
}

/// What is predicted with.
#[derive(Clone, Copy, Debug, PartialEq, Eq, Structural)]
pub enum Predictor {
    /// The weights of a linear model.
    Linear,
    /// The trees of some rounds, without those that dropout with this seed leaves out.
    Trees { trees: TreeRange, rounds: usize, dropout: Option<u32> },
}

/// The error that an operation on trees meets in a model without any.
pub open spec fn needs_trees(e: Error) -> bool {
    e.refuses("booster"@, "this operation needs a tree ensemble; the model is `gblinear`"@)
}

/// The trees of the rounds `begin..end`.
pub open spec fn trees_of_rounds<T>(tree: GBTree<T>, begin: u32, end: u32) -> TreeRange {
    TreeRange {
        begin: (begin * tree.model.round_trees()) as usize,
        end: (end * tree.model.round_trees()) as usize,
    }
}

/// Values per row, where there is one.
pub open spec fn per_row(values: int, rows: int) -> int {
    if rows == 0 {
        0
    } else {
        values / rows
    }
}

impl<T> Booster<T> {
    /// The trees of a round can be counted.
    pub open spec fn wf(&self) -> bool {
        self.learner.booster matches crate::gbm::Booster::Tree(t) ==> t.model.round_trees() <= usize::MAX
    }

    pub fn from_learner(learner: Learner<T>) -> (booster: Self)
        ensures
            booster == (Booster { learner, best_iteration: None, best_score: None }),
    {
        Booster { learner, best_iteration: None, best_score: None }
    }

    pub fn learner(&self) -> (learner: &Learner<T>)
        ensures
            *learner == self.learner,
    {
        &self.learner
    }

    /// The round with the best score on the watch list. Rounds after it are still part of the
    /// model.
    pub fn best_iteration(&self) -> (best: Option<usize>)
        ensures
            best == self.best_iteration,
    {
        self.best_iteration
    }

    pub fn best_score(&self) -> (best: Option<u64>)
        ensures
            best == self.best_score,
    {
        self.best_score
    }

    /// Boosting rounds run. A round that grows many trees counts once.
    pub fn boosted_rounds(&self) -> (n: usize)
        requires
            self.wf(),
        ensures
            n == self.learner.booster.rounds(),
    {
        self.learner.boosted_rounds()
    }

    /// Trees in the ensemble.
    pub fn num_trees(&self) -> (n: usize)
        ensures
            n == (match self.learner.booster {
                crate::gbm::Booster::Tree(t) => t.model.trees.len(),
                crate::gbm::Booster::Linear(_) => 0,
            }),
    {
        match self.learner.gbm() {
            Some(t) => t.model.num_trees(),
            None => 0,
        }
    }

    pub fn num_features(&self) -> (n: usize)
        ensures
            n == self.learner.booster.features(),
    {
        self.learner.booster.num_feature()
    }

    /// Outputs this model predicts per row.
    pub fn num_output_group(&self) -> (n: usize)
        ensures
            n == self.learner.booster.groups(),
    {
        self.learner.num_output_group()
    }

    /// The tree ensemble, or an error naming the booster that has none.
    pub fn tree_model(&self) -> (result: Result<&GBTree<T>, Error>)
        ensures
            match self.learner.booster {
                crate::gbm::Booster::Tree(t) => result is Ok && *result->Ok_0 == t,
                crate::gbm::Booster::Linear(_) => result is Err && needs_trees(result->Err_0),
            },
    {
        match self.learner.gbm() {
            Some(t) => Ok(t),
            None => Err(
                Error::invalid(
                    "booster",
                    "this operation needs a tree ensemble; the model is `gblinear`".to_owned(),
                ),
            ),
        }
    }

    /// The seed of the dropout of a prediction made as a training round would make it: a
    /// function of the model alone, so that predicting twice gives the same answer.
    pub open spec fn dropout_seed_of(&self, params: PredictParameters) -> Option<u32> {
        match self.learner.booster {
            crate::gbm::Booster::Tree(t) => if params.training && t.dart is Some {
                Some(iteration_seed(self.learner.ctx.seed, self.learner.booster.rounds()))
            } else {
                None
            },
            crate::gbm::Booster::Linear(_) => None,
        }
    }

    /// What a prediction is made with.
    pub open spec fn predictor_of(&self, params: PredictParameters, begin: u32, end: u32) -> Predictor {
        match self.learner.booster {
            crate::gbm::Booster::Tree(t) => Predictor::Trees {
                trees: trees_of_rounds(t, begin, end),
                rounds: (end - begin) as usize,
                dropout: self.dropout_seed_of(params),
            },
            crate::gbm::Booster::Linear(_) => Predictor::Linear,
        }
    }

    /// Decide what a prediction is made with: refuse a matrix with other features than the
    /// model's, a round range or leaves of a linear model, and a round range that does not
    /// exist. `rounds` is what the round range resolves to.
    pub fn predict_with(&self, params: &PredictParameters, num_col: usize, rounds: Result<(u32, u32), Error>) -> (result: Result<
        Predictor,
        Error,
    >)
        requires
            self.wf(),
            self.learner.booster.features() < usize::MAX,
            rounds matches Ok((begin, end)) ==> begin <= end && end <= self.learner.booster.rounds(),
        ensures
            ({
                let features = self.learner.booster.features();
                let wrong = params.validate_features && num_col != features;
                let linear = self.learner.booster is Linear;
                let ranged = params.iteration_range != (IterationRange { begin: 0, end: 0 });
                &&& wrong ==> result is Err && result->Err_0.refuses(
                    "validate_features"@,
                    "the model has "@ + decimal(features as nat) + " features, the matrix has "@ + decimal(
                        num_col as nat,
                    ) + ""@,
                )
                &&& !wrong && linear && ranged ==> result is Err && result->Err_0.refuses(
                    "iteration_range"@,
                    "the `gblinear` booster has no per-round trees, so it cannot predict a round range"@,
                )
                &&& !wrong && linear && !ranged && params.predict_type is Leaf ==> result is Err && result->Err_0.refuses(
                    "predict_type"@,
                    "the `gblinear` booster has no leaves to report"@,
                )
                &&& !wrong && linear && !ranged && !(params.predict_type is Leaf) ==> result == Ok::<Predictor, Error>(
                    Predictor::Linear,
                )
                &&& !wrong && !linear ==> match rounds {
                    Err(e) => result == Err::<Predictor, Error>(e),
                    Ok((begin, end)) => result == Ok::<Predictor, Error>(self.predictor_of(*params, begin, end)),
                }
            }),
    {
        match check_features(params, self.num_features(), num_col) {
            Err(e) => {
                return Err(e);
            },
            Ok(()) => {},
        }
        match &self.learner.booster {
            crate::gbm::Booster::Linear(_) => {
                let s = ShapeInputs {
                    n_rows: 0,
                    n_groups: 0,
                    n_features: self.num_features(),
                    stride: 0,
                    leaves: 0,
                    rounds: 0,
                    num_parallel_tree: 0,
                };
                match linear_shape(params, &s) {
                    Err(e) => Err(e),
                    Ok(_) => Ok(Predictor::Linear),
                }
            },
            crate::gbm::Booster::Tree(t) => {
                let (begin, end) = match rounds {
                    Err(e) => {
                        return Err(e);
                    },
                    Ok(range) => range,
                };
                let per: usize = t.model.trees_per_round();
                let n: usize = t.model.num_rounds();
                proof {
                    let trees = t.model.trees.len() as int;
                    vstd::arithmetic::div_mod::lemma_fundamental_div_mod(trees, per as int);
                    assert(end * per <= trees && begin * per <= end * per) by (nonlinear_arith)
                        requires
                            0 <= begin <= end <= n,
                            trees == per * n + trees % (per as int),
                            0 <= trees % (per as int),
                            per >= 1,
                    ;
                }
                let dropout: Option<u32> = if params.training && t.is_dart() {
                    Some(round_seed(self.learner.ctx.seed, n))
                } else {
                    None
                };
                Ok(
                    Predictor::Trees {
                        trees: TreeRange { begin: begin as usize * per, end: end as usize * per },
                        rounds: (end - begin) as usize,
                        dropout,
                    },
                )
            },
        }
    }

    /// The groups that a prediction has a dimension for: the outputs, or where leaves are
    /// reported the groups that a round grows trees for.
    pub open spec fn shape_groups(&self, kind: PredictionType) -> int {
        match self.learner.booster {
            crate::gbm::Booster::Tree(t) => if kind is Leaf {
                t.model.tree_groups()
            } else {
                self.learner.booster.groups()
            },
            crate::gbm::Booster::Linear(_) => self.learner.booster.groups(),
        }
    }

    /// What the shape of a prediction follows from, once its values are there.
    pub open spec fn shape_inputs(&self, kind: PredictionType, predictor: Predictor, n_rows: usize, values: int) -> ShapeInputs {
        ShapeInputs {
            n_rows,
            n_groups: self.shape_groups(kind) as usize,
            n_features: self.learner.booster.features() as usize,
            stride: (values / at_least_one(n_rows as int)) as usize,
            leaves: per_row(values, n_rows as int) as usize,
            rounds: match predictor {
                Predictor::Trees { rounds, .. } => rounds,
                Predictor::Linear => 0,
            },
            num_parallel_tree: match self.learner.booster {
                crate::gbm::Booster::Tree(t) => t.model.num_parallel_tree,
                crate::gbm::Booster::Linear(_) => 1,
            },
        }
    }

    /// Give the values that a predictor computed the shape they should be read with.
    pub fn shape_prediction(&self, params: &PredictParameters, predictor: Predictor, n_rows: usize, values: Vec<u32>) -> (prediction: Prediction)
        requires
            self.learner.booster.features() < usize::MAX,
        ensures
            prediction.values == values,
            prediction.shape@ == tree_shape_of(
                params.predict_type,
                params.strict_shape,
                self.shape_inputs(params.predict_type, predictor, n_rows, values.len() as int),
            ),
    {
        let rows: usize = if n_rows == 0 {
            1
        } else {
            n_rows
        };
        let n_groups: usize = match (&self.learner.booster, params.predict_type) {
            (crate::gbm::Booster::Tree(t), PredictionType::Leaf) => t.model.num_tree_groups(),
            _ => self.num_output_group(),
        };
        let s = ShapeInputs {
            n_rows,
            n_groups,
            n_features: self.num_features(),
            stride: values.len() / rows,
            leaves: if n_rows == 0 {
                0
            } else {
                values.len() / n_rows
            },
            rounds: match predictor {
                Predictor::Trees { rounds, .. } => rounds,
                Predictor::Linear => 0,
            },
            num_parallel_tree: match &self.learner.booster {
                crate::gbm::Booster::Tree(t) => t.model.num_parallel_tree,
                crate::gbm::Booster::Linear(_) => 1,
            },
        };
        let shape: Vec<usize> = tree_shape(params, &s);
        Prediction { values, shape }
    }
}

/// Reported leaves fill their strict shape: a row has one leaf per tree of the rounds used.
pub proof fn lemma_leaves_fill<T>(tree: GBTree<T>, begin: u32, end: u32, n_rows: int)
    requires
        begin <= end,
        end * tree.model.round_trees() <= usize::MAX,
    ensures
        n_rows * ((end - begin) * tree.model.tree_groups() * at_least_one(tree.model.num_parallel_tree as int))
            == n_rows * (trees_of_rounds(tree, begin, end).end - trees_of_rounds(tree, begin, end).begin),
{
    let p = at_least_one(tree.model.num_parallel_tree as int);
    let g = tree.model.tree_groups();
    let per = tree.model.round_trees();
    assert(0 <= begin * per <= end * per) by (nonlinear_arith)
        requires
            0 <= begin <= end,
            per == p * g,
            p >= 1,
            g >= 1,
    ;
    assert(end * per - begin * per == (end - begin) * g * p) by (nonlinear_arith)
        requires
            per == p * g,
    ;
}

/// All rounds are all trees, where the ensemble is made of whole rounds.
pub proof fn lemma_all_rounds<T>(tree: GBTree<T>, rounds: u32)
    requires
        tree.model.round_trees() >= 1,
        tree.model.trees.len() == rounds * tree.model.round_trees(),
    ensures
        trees_of_rounds(tree, 0, rounds) == (TreeRange { begin: 0, end: tree.model.trees.len() }),
{
    assert(0 * tree.model.round_trees() == 0) by (nonlinear_arith);
}

/// A range of rounds takes the trees of those rounds and no others: as many as it has rounds times
/// the trees of a round, and ranges that meet take trees that meet.
pub proof fn lemma_round_ranges<T>(tree: GBTree<T>, begin: u32, middle: u32, end: u32)
    requires
        begin <= middle <= end,
        end * tree.model.round_trees() <= usize::MAX,
    ensures
        trees_of_rounds(tree, begin, end).begin == begin * tree.model.round_trees(),
        trees_of_rounds(tree, begin, middle).begin == trees_of_rounds(tree, begin, end).begin,
        trees_of_rounds(tree, begin, middle).end == trees_of_rounds(tree, middle, end).begin,
        trees_of_rounds(tree, middle, end).end == trees_of_rounds(tree, begin, end).end,
        trees_of_rounds(tree, begin, end).end - trees_of_rounds(tree, begin, end).begin == (end - begin)
            * tree.model.round_trees(),
        trees_of_rounds(tree, 0, 0).end == 0,
{
    let per = tree.model.round_trees();
    crate::gbm::lemma_round_trees(tree.model);
    assert(0 <= begin * per <= middle * per <= end * per) by (nonlinear_arith)
        requires
            0 <= begin <= middle <= end,
            per >= 1,
    ;
    assert(end * per - begin * per == (end - begin) * per) by (nonlinear_arith);
    assert(0 * per == 0) by (nonlinear_arith);
}

/// Trees are dropped while predicting exactly where a dropout model predicts as in training; a
/// linear model takes no rounds.
pub proof fn lemma_predictors<T>(booster: Booster<T>, params: PredictParameters, begin: u32, end: u32)
    requires
        begin <= end,
    ensures
        booster.learner.booster is Linear ==> booster.predictor_of(params, begin, end) is Linear,
        booster.learner.booster matches crate::gbm::Booster::Tree(t) ==> booster.predictor_of(params, begin, end)
            matches Predictor::Trees { trees, rounds, dropout } && rounds == end - begin && trees == trees_of_rounds(
            t,
            begin,
            end,
        ) && (dropout is Some <==> params.training && t.dart is Some) && (dropout matches Some(seed) ==> seed
            == iteration_seed(booster.learner.ctx.seed, booster.learner.booster.rounds())),
{
}

/// The values of a prediction are shared out among the rows: where they fill the rows, so many to
/// each.
pub proof fn lemma_values_per_row(values: int, rows: int, width: int)
    requires
        rows > 0,
        width >= 0,
        values == rows * width,
    ensures
        per_row(values, rows) == width,
        values / at_least_one(rows) == width,
        per_row(values, 0) == 0,
{
    assert(rows * width == width * rows) by (nonlinear_arith);
    vstd::arithmetic::div_mod::lemma_fundamental_div_mod_converse(values, rows, width, 0);
}

/// What a prediction's shape is made from: the rows, the features and the parallel trees as they
/// are, the outputs, and for leaves the groups that trees are grown for.
pub proof fn lemma_shape_inputs<T>(
    booster: Booster<T>,
    kind: PredictionType,
    predictor: Predictor,
    n_rows: usize,
    width: usize,
)
    requires
        n_rows > 0,
        n_rows * width <= usize::MAX,
    ensures
        ({
            let s = booster.shape_inputs(kind, predictor, n_rows, n_rows * width);
            &&& s.n_rows == n_rows
            &&& s.stride == width && s.leaves == width
            &&& predictor matches Predictor::Trees { rounds, .. } ==> s.rounds == rounds
            &&& booster.learner.booster matches crate::gbm::Booster::Tree(t) ==> {
                &&& s.n_features == t.model.num_feature
                &&& s.num_parallel_tree == t.model.num_parallel_tree
                &&& t.model.num_output_group >= 1 && !(kind is Leaf && t.model.multi_output) ==> s.n_groups
                    == t.model.num_output_group
                &&& kind is Leaf && t.model.multi_output ==> s.n_groups == 1
            }
            &&& booster.learner.booster matches crate::gbm::Booster::Linear(l) ==> {
                &&& s.n_features == l.num_feature
                &&& l.num_output_group >= 1 ==> s.n_groups == l.num_output_group
            }
        }),
{
    lemma_values_per_row(n_rows * width, n_rows as int, width as int);
}

} // verus!
