//! The beginning of a fit: what is checked, what is made, what is taken over from a base
//! model.

use vstd::prelude::*;

use crate::api::{
    check_training, check_update, maximised, train_param, training_error, training_runs, translates, EarlyStopping,
    FitChecks, FitRounds,
};
use crate::context::{low_word, Context};
use crate::error::Error;
use crate::gbm::{Booster, DartConfig, GBTree, LinearModel};
use crate::learner::{Learner, HALF_BITS};
use crate::parameters::{
    BoosterType, GeneralParameters, LearningTaskParameters, ProcessType, TrainingParameters, TreeBoosterParameters,
    TreeUpdaterName,
};

verus! {

/// The tree settings of a booster, where it grows trees.
pub open spec fn tree_of(booster: BoosterType) -> Option<TreeBoosterParameters> {
    match booster {
        BoosterType::Gbtree(tree) => Some(tree),
        BoosterType::Dart(dart) => Some(dart.tree),
        BoosterType::Gblinear(_) => None,
    }
}

/// The dropout settings of a booster, where it drops trees.
pub open spec fn dart_of(booster: BoosterType) -> Option<DartConfig> {
    match booster {
        BoosterType::Dart(dart) => Some(
            DartConfig {
                sample_type: dart.sample_type,
                normalize_type: dart.normalize_type,
                rate_drop: dart.rate_drop,
                one_drop: dart.one_drop,
                skip_drop: dart.skip_drop,
                learning_rate: dart.tree.eta,
            },
        ),
        _ => None,
    }
}

/// What a fit is told of its surroundings: the matrix, the device, and what the settings
/// resolve to.
pub struct FitInputs {
    /// The device as it was configured.
    pub device_name: String,
    /// The pipeline that the tree settings resolve to.
    pub updaters: Vec<TreeUpdaterName>,
    /// Histograms kept for reuse.
    pub max_cached_hist_node: u64,
    /// The metrics that are reported, by name.
    pub metric_names: Vec<String>,
    /// How many sets they are reported on.
    pub evals: usize,
    pub has_categorical: bool,
    pub num_col: usize,
    /// The device kernels are built in.
    pub gpu: bool,
}

/// What is checked before a fit begins.
pub open spec fn checks_of<'a>(params: &'a TrainingParameters, inputs: &'a FitInputs, fit: FitChecks<'a>) -> bool {
    &&& fit.device == params.booster.general.device
    &&& fit.device_name@ == inputs.device_name@
    &&& match tree_of(params.booster.booster) {
        Some(tree) => fit.tree matches Some(t) && *t == tree,
        None => fit.tree is None,
    }
    &&& fit.updaters@ == inputs.updaters@
    &&& fit.has_categorical == inputs.has_categorical
    &&& fit.num_col == inputs.num_col
    &&& fit.gpu == inputs.gpu
}

/// A fit with these settings can be run.
pub open spec fn can_run(params: &TrainingParameters, inputs: &FitInputs) -> bool {
    forall|fit: FitChecks| #[trigger] checks_of(params, inputs, fit) ==> training_runs(&fit)
}

/// The booster that a fit starts with, before a base model is taken over.
pub open spec fn fresh_booster<T>(
    params: TrainingParameters,
    inputs: FitInputs,
    linear: LinearModel,
    booster: Booster<T>,
) -> bool {
    match tree_of(params.booster.booster) {
        Some(tree) => booster matches Booster::Tree(t) && {
            &&& translates(
                tree,
                params.booster.general.device,
                inputs.max_cached_hist_node,
                inputs.updaters@,
                t.param,
            )
            &&& t.fresh(inputs.num_col, t.param)
            &&& t.dart == dart_of(params.booster.booster)
        },
        None => booster == Booster::<T>::Linear(linear),
    }
}

/// The booster of a fit that continues from a base model: the model is the base's, the
/// settings are the fit's.
pub open spec fn continued<T>(fresh: Booster<T>, base: Booster<T>, booster: Booster<T>) -> bool {
    match (fresh, base) {
        (Booster::Tree(dst), Booster::Tree(src)) => booster == Booster::Tree(GBTree { model: src.model, ..dst }),
        _ => booster == base,
    }
}

/// A base model that a fit can continue from: one of its own kind, without dropout.
pub open spec fn can_continue<T>(fresh: Booster<T>, base: Booster<T>) -> bool {
    match (fresh, base) {
        (Booster::Tree(_), Booster::Tree(src)) => src.dart is None,
        (Booster::Linear(_), Booster::Linear(_)) => true,
        _ => false,
    }
}

/// Why a fit cannot continue from a base model.
pub open spec fn continue_error<T>(fresh: Booster<T>, base: Booster<T>, e: Error) -> bool {
    match (fresh, base) {
        (Booster::Tree(_), Booster::Tree(_)) => e.refuses(
            "booster"@,
            "continuing from a `dart` model is not supported: dropout rescales every existing tree, so the weights a continued fit would inherit are not the ones it would have produced"@,
        ),
        _ => e.refuses(
            "booster"@,
            "cannot continue a `"@ + fresh.label() + "` fit from a `"@ + base.label() + "` model"@,
        ),
    }
}

/// The booster holds trees.
pub open spec fn holds_trees<T>(booster: Booster<T>) -> bool {
    booster matches Booster::Tree(t) && t.model.trees.len() > 0
}

/// An updating fit has trees to revisit.
pub open spec fn update_has_trees<T>(params: TrainingParameters, booster: Booster<T>) -> bool {
    tree_of(params.booster.booster) matches Some(tree) ==> !(tree.process_type == ProcessType::Update) || holds_trees(
        booster,
    )
}

/// Early stopping, where it is asked for, has something to watch.
pub open spec fn can_stop(params: TrainingParameters, inputs: FitInputs) -> bool {
    params.early_stopping_rounds is Some ==> inputs.evals > 0 && inputs.metric_names.len() > 0
}

/// The rounds of a fit that is about to begin.
pub open spec fn first_rounds(params: TrainingParameters, inputs: FitInputs) -> FitRounds {
    FitRounds {
        done: 0,
        total: params.num_boost_round,
        stopper: match params.early_stopping_rounds {
            None => None,
            Some(rounds) => Some(
                EarlyStopping {
                    rounds,
                    maximize: match params.maximize {
                        Some(m) => m,
                        None => maximised(inputs.metric_names@.last()@),
                    },
                    watched: (inputs.evals * inputs.metric_names.len() - 1) as usize,
                    best_score: 0,
                    best_iteration: 0,
                    since_improvement: 0,
                    started: false,
                },
            ),
        },
        stopped: false,
    }
}

/// What a fit begins with.
pub open spec fn begins<T>(
    params: TrainingParameters,
    inputs: FitInputs,
    linear: LinearModel,
    base: Option<Learner<T>>,
    learner: Learner<T>,
    rounds: FitRounds,
) -> bool {
    let general = params.booster.general;
    let learning = params.booster.learning;
    &&& learner.ctx.nthread == general.nthread
    &&& learner.ctx.verbosity == general.verbosity
    &&& learner.ctx.seed == learning.seed
    &&& learner.ctx.seed_per_iteration == learning.seed_per_iteration
    &&& learner.ctx.rng.wf()
    &&& learner.ctx.rng.stands_at(low_word(learning.seed as int), 0)
    &&& exists|fresh: Booster<T>|
        #[trigger] fresh_booster(params, inputs, linear, fresh) && match base {
            None => learner.booster == fresh,
            Some(b) => can_continue(fresh, b.booster) && continued(fresh, b.booster, learner.booster),
        }
    &&& update_has_trees(params, learner.booster)
    &&& match base {
        Some(b) => learner.base_score_override == Some(b.base_score),
        None => match learning.base_score {
            Some(x) => learner.base_score_override matches Some(given) && given@ == seq![x],
            None => learner.base_score_override is None,
        },
    }
    &&& learner.base_score@ == seq![HALF_BITS]
    &&& learner.base_margin@ == seq![HALF_BITS]
    &&& learner.boost_from_average == learning.boost_from_average
    &&& !learner.configured
    &&& learner.train_cache.len() == 0
    &&& can_stop(params, inputs)
    &&& rounds == first_rounds(params, inputs)
}

/// Why a fit does not begin, in the order it is looked for.
pub open spec fn refused<T>(
    params: TrainingParameters,
    inputs: FitInputs,
    linear: LinearModel,
    base: Option<Learner<T>>,
    e: Error,
) -> bool {
    exists|fresh: Booster<T>|
        #[trigger] fresh_booster(params, inputs, linear, fresh) && {
            let unfit = base matches Some(b) && !can_continue(fresh, b.booster);
            if unfit {
                base matches Some(b) && continue_error(fresh, b.booster, e)
            } else {
                exists|booster: Booster<T>| #[trigger]
                    taken_over(fresh, base, booster) && if !update_has_trees(params, booster) {
                        e.refuses(
                            "process_type"@,
                            "`update` revisits the trees an existing model holds; pass one to `api::train_from`, or use `process_type=default` to grow new trees"@,
                        )
                    } else {
                        !can_stop(params, inputs) && e.refuses(
                            "early_stopping_rounds"@,
                            "early stopping needs at least one evaluation set and one metric"@,
                        )
                    }
            }
        }
}

/// The booster once the base model, if there is one, was taken over.
pub open spec fn taken_over<T>(fresh: Booster<T>, base: Option<Learner<T>>, booster: Booster<T>) -> bool {
    match base {
        None => booster == fresh,
        Some(b) => continued(fresh, b.booster, booster),
    }
}

/// Begin a fit: check that it can be run, make its booster, take over the base model, and set
/// up its rounds. `linear` is the untrained linear model, which is used where no trees are
/// grown.
pub fn begin_fit<T>(
    params: &TrainingParameters,
    inputs: &FitInputs,
    linear: LinearModel,
    base: Option<Learner<T>>,
) -> (result: Result<(Learner<T>, FitRounds), Error>)
    requires
        inputs.evals * inputs.metric_names.len() <= usize::MAX,
    ensures
        match result {
            Ok((learner, rounds)) => can_run(params, inputs) && begins(*params, *inputs, linear, base, learner, rounds),
            Err(e) => if can_run(params, inputs) {
                refused(*params, *inputs, linear, base, e)
            } else {
                exists|fit: FitChecks| #[trigger] checks_of(params, inputs, fit) && training_error(&fit, e)
            },
        },
{
    let general: &GeneralParameters = &params.booster.general;
    let learning: &LearningTaskParameters = &params.booster.learning;
    let tree: Option<&TreeBoosterParameters> = match &params.booster.booster {
        BoosterType::Gbtree(tree) => Some(tree),
        BoosterType::Dart(dart) => Some(&dart.tree),
        BoosterType::Gblinear(_) => None,
    };
    let dart: Option<DartConfig> = match &params.booster.booster {
        BoosterType::Dart(dart) => Some(DartConfig::from_parameters(dart)),
        _ => None,
    };
    let fit = FitChecks {
        device: general.device,
        device_name: inputs.device_name.as_str(),
        tree,
        updaters: inputs.updaters.as_slice(),
        has_categorical: inputs.has_categorical,
        num_col: inputs.num_col,
        gpu: inputs.gpu,
    };
    assert(checks_of(params, inputs, fit));
    match check_training(&fit) {
        Err(e) => {
            return Err(e);
        },
        Ok(()) => {},
    }
    let ctx: Context = Context::new(general, learning);
    let mut updaters: Vec<TreeUpdaterName> = Vec::with_capacity(inputs.updaters.len());
    updaters.extend_from_slice(inputs.updaters.as_slice());
    assert(updaters@ =~= inputs.updaters@);
    let mut learner: Learner<T> = match tree {
        None => Learner::with_booster(ctx, Booster::Linear(linear), learning.base_score),
        Some(tree) => match train_param(tree, general.device, inputs.max_cached_hist_node, Ok(updaters)) {
            Ok(param) => Learner::new(ctx, inputs.num_col, param, learning.base_score),
            Err(e) => {
                return Err(e);
            },
        },
    };
    learner.set_boost_from_average(learning.boost_from_average);
    match dart {
        Some(dart) => learner.set_dart(dart),
        None => {},
    }
    let ghost fresh = learner.booster;
    assert(fresh_booster(*params, *inputs, linear, fresh));
    match base {
        Some(b) => {
            match learner.continue_from(b) {
                Err(e) => {
                    return Err(e);
                },
                Ok(()) => {},
            }
        },
        None => {},
    }
    assert(taken_over(fresh, base, learner.booster));
    match tree {
        Some(tree) => {
            match check_update(tree, learner.has_trees()) {
                Err(e) => {
                    return Err(e);
                },
                Ok(()) => {},
            }
        },
        None => {},
    }
    let stopper: Option<EarlyStopping> = match params.early_stopping_rounds {
        Some(rounds) => match EarlyStopping::new(
            rounds,
            params.maximize,
            inputs.evals,
            inputs.metric_names.as_slice(),
        ) {
            Ok(stopper) => Some(stopper),
            Err(e) => {
                return Err(e);
            },
        },
        None => None,
    };
    Ok((learner, FitRounds::new(params.num_boost_round, stopper)))
}

/// A fit begins with what was asked for: its threads, verbosity and seed, as many rounds, and the
/// trees of the settings for as many columns as the matrix has.
pub proof fn lemma_fit_settings<T>(
    params: TrainingParameters,
    inputs: FitInputs,
    linear: LinearModel,
    base: Option<Learner<T>>,
    learner: Learner<T>,
    rounds: FitRounds,
)
    requires
        begins(params, inputs, linear, base, learner, rounds),
    ensures
        learner.ctx.nthread == params.booster.general.nthread,
        learner.ctx.verbosity == params.booster.general.verbosity,
        learner.ctx.seed == params.booster.learning.seed,
        learner.ctx.seed_per_iteration == params.booster.learning.seed_per_iteration,
        learner.boost_from_average == params.booster.learning.boost_from_average,
        !learner.configured,
        rounds.total == params.num_boost_round,
        rounds.done == 0 && !rounds.stopped,
        params.booster.booster is Gblinear <==> learner.booster is Linear,
        learner.booster matches Booster::Tree(t) ==> {
            &&& t.dart is Some <==> params.booster.booster is Dart
            &&& t.dart matches Some(d) ==> {
                let asked = params.booster.booster->Dart_0;
                &&& d.rate_drop == asked.rate_drop && d.skip_drop == asked.skip_drop && d.one_drop == asked.one_drop
                &&& d.sample_type == asked.sample_type && d.normalize_type == asked.normalize_type
                &&& d.learning_rate == asked.tree.eta
            }
            &&& base is None ==> t.model.num_feature == inputs.num_col && t.model.trees.len() == 0
            &&& params.booster.booster matches BoosterType::Gbtree(tree) ==> t.param.learning_rate == tree.eta
                && t.param.min_split_loss == tree.gamma && t.param.reg_lambda == tree.lambda && t.param.reg_alpha == tree.alpha
                && t.param.min_child_weight == tree.min_child_weight && t.param.num_parallel_tree == tree.num_parallel_tree
                && (tree.max_depth < 0x8000_0000 ==> t.param.max_depth == tree.max_depth) && (tree.max_leaves < 0x8000_0000
                ==> t.param.max_leaves == tree.max_leaves)
            &&& params.booster.booster matches BoosterType::Dart(dart) ==> t.param.learning_rate == dart.tree.eta
                && t.param.min_split_loss == dart.tree.gamma && t.param.reg_lambda == dart.tree.lambda && t.param.reg_alpha == dart.tree.alpha
                && t.param.min_child_weight == dart.tree.min_child_weight && t.param.num_parallel_tree == dart.tree.num_parallel_tree
                && (dart.tree.max_depth < 0x8000_0000 ==> t.param.max_depth == dart.tree.max_depth) && (dart.tree.max_leaves < 0x8000_0000
                ==> t.param.max_leaves == dart.tree.max_leaves)
        },
        learner.booster matches Booster::Linear(l) ==> base is None ==> l == linear,
{
}

/// A fit that continues a model begins with that model's trees or weights, and with its intercept;
/// one that continues none takes the intercept that was given, if any.
pub proof fn lemma_fit_continues<T>(
    params: TrainingParameters,
    inputs: FitInputs,
    linear: LinearModel,
    base: Option<Learner<T>>,
    learner: Learner<T>,
    rounds: FitRounds,
)
    requires
        begins(params, inputs, linear, base, learner, rounds),
    ensures
        base matches Some(b) ==> {
            &&& learner.base_score_override == Some(b.base_score)
            &&& learner.booster is Tree <==> b.booster is Tree
            &&& b.booster matches Booster::Tree(src) ==> src.dart is None && learner.booster->Tree_0.model == src.model
            &&& b.booster matches Booster::Linear(src) ==> learner.booster == Booster::<T>::Linear(src)
        },
        base is None ==> (learner.base_score_override is Some <==> params.booster.learning.base_score is Some),
        base is None ==> (params.booster.learning.base_score matches Some(x) ==> learner.base_score_override->0.len()
            == 1 && learner.base_score_override->0[0] == x),
{
}

/// A fit stops early exactly where it was asked to, and it can only where there is something to
/// watch: the last metric of the last set. What was said of larger or smaller scores counts before
/// the metric's name.
pub proof fn lemma_fit_stops(params: TrainingParameters, inputs: FitInputs)
    requires
        inputs.evals * inputs.metric_names.len() <= usize::MAX,
    ensures
        first_rounds(params, inputs).stopper is Some <==> params.early_stopping_rounds is Some,
        params.early_stopping_rounds is Some && (inputs.evals == 0 || inputs.metric_names.len() == 0) ==> !can_stop(
            params,
            inputs,
        ),
        params.early_stopping_rounds is None ==> can_stop(params, inputs),
        inputs.evals > 0 && inputs.metric_names.len() > 0 ==> can_stop(params, inputs) && (first_rounds(
            params,
            inputs,
        ).stopper matches Some(s) ==> {
            &&& Some(s.rounds) == params.early_stopping_rounds
            &&& s.watched + 1 == inputs.evals * inputs.metric_names.len()
            &&& !s.started && s.since_improvement == 0
            &&& params.maximize matches Some(m) ==> s.maximize == m
            &&& params.maximize is None ==> s.maximize == maximised(
                inputs.metric_names[inputs.metric_names.len() - 1]@,
            )
        }),
{
    let n = inputs.metric_names.len() as int;
    if inputs.evals > 0 && n > 0 {
        assert(inputs.evals * n >= 1) by (nonlinear_arith)
            requires
                inputs.evals >= 1,
                n >= 1,
        ;
    }
}

/// A dropout model is never continued, nor a model of another kind; an updating fit needs trees.
pub proof fn lemma_fit_bases<T>(fresh: Booster<T>, base: Booster<T>, params: TrainingParameters, booster: Booster<T>)
    ensures
        base matches Booster::Tree(t) ==> (t.dart is Some ==> !can_continue(fresh, base)),
        can_continue(fresh, base) ==> (fresh is Tree <==> base is Tree),
        fresh is Linear && base is Linear ==> can_continue(fresh, base),
        fresh is Tree && (base matches Booster::Tree(t) && t.dart is None) ==> can_continue(fresh, base),
        params.booster.booster matches BoosterType::Gbtree(tree) ==> (tree.process_type is Update ==> (
        update_has_trees(params, booster) <==> (booster matches Booster::Tree(t) && t.model.trees.len() > 0))),
        params.booster.booster matches BoosterType::Gbtree(tree) ==> (tree.process_type is Default ==> update_has_trees(
            params,
            booster,
        )),
        params.booster.booster is Gblinear ==> update_has_trees(params, booster),
{
}

/// Whether a fit can be run is told by the checks made of its own device, trees, updaters, matrix and
/// kernels.
pub proof fn lemma_can_run<'a>(params: &'a TrainingParameters, inputs: &'a FitInputs, fit: FitChecks<'a>)
    requires
        checks_of(params, inputs, fit),
    ensures
        can_run(params, inputs) <==> training_runs(&fit),
        fit.device == params.booster.general.device,
        fit.updaters@ == inputs.updaters@,
        fit.has_categorical == inputs.has_categorical && fit.num_col == inputs.num_col && fit.gpu == inputs.gpu,
        fit.tree is None <==> params.booster.booster is Gblinear,
        params.booster.booster matches BoosterType::Gbtree(tree) ==> *fit.tree->0 == tree,
        params.booster.booster matches BoosterType::Dart(dart) ==> *fit.tree->0 == dart.tree,
{
    if training_runs(&fit) {
        assert forall|other: FitChecks| #[trigger] checks_of(params, inputs, other) implies training_runs(&other) by {
            assert(other.device == fit.device);
            assert(other.updaters@ == fit.updaters@);
            assert(other.tree is Some <==> fit.tree is Some);
            if other.tree is Some {
                assert(*other.tree->0 == *fit.tree->0);
            }
        }
    }
}

} // verus!
