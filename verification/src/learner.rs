//! What a fit carries between rounds: the intercept, estimated once from the labels, and the
//! margins of the training matrix.

use vstd::prelude::*;
use vstd::string::StringExecFns;

use crate::context::{iteration_seed, Context};
use crate::data::DMatrix;
use crate::error::Error;
use crate::gbm::{Booster, DartConfig, GBTree, GBTreeModel, LinearModel};
use crate::parameters::Verbosity;
use crate::tree::param::TrainParam;

verus! {

/// The bits of one half, the untrained intercept.
pub const HALF_BITS: u32 = 0x3F00_0000;

/// A range of trees.
#[derive(Clone, Copy, Debug, PartialEq, Eq, Structural)]
pub struct TreeRange {
    pub begin: usize,
    pub end: usize,
}

/// Orchestrates boosting rounds over a training matrix.
#[derive(Clone, Debug)]
pub struct Learner<T> {
    pub ctx: Context,
    pub booster: Booster<T>,
    /// The intercept in prediction space, one value per output group.
    pub base_score: Vec<u32>,
    /// The same intercept in margin space.
    pub base_margin: Vec<u32>,
    /// A given intercept, which suppresses its estimation. A single value is broadcast over
    /// the output groups; a whole vector is used as it is.
    pub base_score_override: Option<Vec<u32>>,
    /// Whether the intercept may be estimated from the labels at all.
    pub boost_from_average: bool,
    pub configured: bool,
    /// Margins of the training matrix, updated in place each round.
    pub train_cache: Vec<u32>,
}

/// `n` times the same number.
pub open spec fn repeated(x: u32, n: int) -> Seq<u32> {
    Seq::new(n as nat, |i: int| x)
}

/// An estimate with as many values as there are groups: cut off, or its last value repeated.
pub open spec fn resized(estimated: Seq<u32>, n: int) -> Seq<u32> {
    let last = if estimated.len() == 0 {
        HALF_BITS
    } else {
        estimated.last()
    };
    Seq::new(
        n as nat,
        |i: int|
            if i < estimated.len() {
                estimated[i]
            } else {
                last
            },
    )
}

/// The intercept of a fit with `n` output groups.
pub open spec fn intercept(given: Option<Vec<u32>>, from_average: bool, estimated: Seq<u32>, n: int) -> Seq<u32> {
    match given {
        Some(b) => if b.len() == n {
            b@
        } else {
            repeated(b[0], n)
        },
        None => if from_average {
            resized(estimated, n)
        } else {
            repeated(HALF_BITS, n)
        },
    }
}

/// A booster with another number of outputs per row, and otherwise the same.
pub open spec fn with_groups<T>(booster: Booster<T>, n: usize) -> Booster<T> {
    match booster {
        Booster::Tree(t) => Booster::Tree(
            GBTree { model: GBTreeModel { num_output_group: n, ..t.model }, ..t },
        ),
        Booster::Linear(l) => Booster::Linear(LinearModel { num_output_group: n, ..l }),
    }
}

impl<T> Learner<T> {
    /// A learner around a tree booster.
    pub fn new(ctx: Context, num_feature: usize, param: TrainParam, base_score: Option<u32>) -> (learner: Self)
        ensures
            learner.ctx == ctx,
            learner.booster matches Booster::Tree(t) && t.fresh(num_feature, param) && t.dart is None,
            learner.base_score@ == seq![HALF_BITS],
            learner.base_margin@ == seq![HALF_BITS],
            match base_score {
                Some(b) => learner.base_score_override is Some && learner.base_score_override->0@ == seq![b],
                None => learner.base_score_override is None,
            },
            learner.boost_from_average,
            !learner.configured,
            learner.train_cache.len() == 0,
    {
        Self::with_booster(ctx, Booster::Tree(GBTree::new(num_feature, param)), base_score)
    }

    /// A learner around an arbitrary booster.
    pub fn with_booster(ctx: Context, booster: Booster<T>, base_score: Option<u32>) -> (learner: Self)
        ensures
            learner.ctx == ctx,
            learner.booster == booster,
            learner.base_score@ == seq![HALF_BITS],
            learner.base_margin@ == seq![HALF_BITS],
            match base_score {
                Some(b) => learner.base_score_override is Some && learner.base_score_override->0@ == seq![b],
                None => learner.base_score_override is None,
            },
            learner.boost_from_average,
            !learner.configured,
            learner.train_cache.len() == 0,
    {
        let half: Vec<u32> = vec![HALF_BITS];
        let margin: Vec<u32> = vec![HALF_BITS];
        assert(half@ =~= seq![HALF_BITS]);
        assert(margin@ =~= seq![HALF_BITS]);
        let base_score_override: Option<Vec<u32>> = match base_score {
            Some(b) => {
                let one: Vec<u32> = vec![b];
                assert(one@ =~= seq![b]);
                Some(one)
            },
            None => None,
        };
        Learner {
            ctx,
            booster,
            base_score: half,
            base_margin: margin,
            base_score_override,
            boost_from_average: true,
            configured: false,
            train_cache: Vec::new(),
        }
    }

    /// Drop trees before each round's gradients. Only a tree booster has dropout.
    pub fn set_dart(&mut self, dart: DartConfig)
        ensures
            match old(self).booster {
                Booster::Tree(t) => *final(self) == (Learner {
                    booster: Booster::Tree(GBTree { dart: Some(dart), ..t }),
                    ..*old(self)
                }),
                Booster::Linear(_) => *final(self) == *old(self),
            },
    {
        match &mut self.booster {
            Booster::Tree(tree) => tree.set_dart(dart),
            Booster::Linear(_) => {},
        }
    }

    /// Whether the intercept is estimated from the labels or left at one half.
    pub fn set_boost_from_average(&mut self, boost_from_average: bool)
        ensures
            *final(self) == (Learner { boost_from_average, ..*old(self) }),
    {
        self.boost_from_average = boost_from_average;
    }

    /// The intercept in prediction space; the first of several.
    pub fn base_score(&self) -> (b: u32)
        requires
            self.base_score.len() > 0,
        ensures
            b == self.base_score[0],
    {
        self.base_score[0]
    }

    /// The whole intercept vector.
    pub fn base_scores(&self) -> (b: &[u32])
        ensures
            b@ == self.base_score@,
    {
        self.base_score.as_slice()
    }

    /// The intercept in margin space, which is what predictions start from.
    pub fn base_margin(&self) -> (b: &[u32])
        ensures
            b@ == self.base_margin@,
    {
        self.base_margin.as_slice()
    }

    /// The booster this learner trains.
    pub fn booster(&self) -> (b: &Booster<T>)
        ensures
            *b == self.booster,
    {
        &self.booster
    }

    /// The tree ensemble, for the callers that only exist for tree models.
    pub fn gbm(&self) -> (tree: Option<&GBTree<T>>)
        ensures
            tree is Some <==> self.booster is Tree,
            tree matches Some(t) ==> *t == self.booster->Tree_0,
    {
        self.booster.tree()
    }

    /// The configured seed.
    pub fn seed(&self) -> (seed: i64)
        ensures
            seed == self.ctx.seed,
    {
        self.ctx.seed
    }

    pub fn boosted_rounds(&self) -> (n: usize)
        requires
            self.booster matches Booster::Tree(t) ==> t.model.round_trees() <= usize::MAX,
        ensures
            n == self.booster.rounds(),
    {
        self.booster.boosted_rounds()
    }

    /// Outputs per row this fit produces.
    pub fn num_output_group(&self) -> (n: usize)
        ensures
            n == self.booster.groups(),
    {
        self.booster.num_output_group()
    }

    /// The labels are as many as the rows have targets. A learner that is configured has
    /// been asked before.
    pub fn check_labels(&self, dtrain: &DMatrix, n_targets: usize) -> (result: Result<(), Error>)
        requires
            dtrain.info.num_row * n_targets <= usize::MAX,
        ensures
            result is Ok <==> self.configured || dtrain.info.labels.len() == dtrain.info.num_row * n_targets,
            result matches Err(e) ==> e == (Error::DataShape {
                expected: (dtrain.info.num_row * n_targets) as usize,
                got: dtrain.info.labels.len(),
            }),
    {
        if self.configured {
            return Ok(());
        }
        let expected: usize = dtrain.num_row() * n_targets;
        if dtrain.info.labels.len() != expected {
            return Err(Error::DataShape { expected, got: dtrain.info.labels.len() });
        }
        Ok(())
    }

    /// Settle the intercept for `n_groups` output groups: the given one, the estimate, or one
    /// half. Nothing where the learner is configured.
    pub fn set_intercept(&mut self, n_groups: usize, estimated: Vec<u32>)
        requires
            old(self).base_score_override matches Some(b) ==> b.len() > 0,
        ensures
            old(self).configured ==> *final(self) == *old(self),
            !old(self).configured ==> ({
                let n = crate::gbm::at_least_one(n_groups as int);
                &&& final(self).base_score@ == intercept(
                    old(self).base_score_override,
                    old(self).boost_from_average,
                    estimated@,
                    n,
                )
                &&& *final(self) == (Learner {
                    base_score: final(self).base_score,
                    booster: with_groups(old(self).booster, n as usize),
                    ..*old(self)
                })
            }),
    {
        if self.configured {
            return ;
        }
        let n: usize = if n_groups == 0 {
            1
        } else {
            n_groups
        };
        match &mut self.booster {
            Booster::Tree(t) => t.set_num_output_group(n),
            Booster::Linear(l) => {
                l.num_output_group = n;
            },
        }
        let score: Vec<u32> = match &self.base_score_override {
            Some(b) => if b.len() == n {
                let mut copy: Vec<u32> = Vec::with_capacity(n);
                copy.extend_from_slice(b.as_slice());
                assert(copy@ =~= b@);
                copy
            } else {
                let all: Vec<u32> = vec![b[0]; n];
                assert(all@ =~= repeated(b[0], n as int));
                all
            },
            None => if self.boost_from_average {
                resize(estimated, n)
            } else {
                let all: Vec<u32> = vec![HALF_BITS; n];
                assert(all@ =~= repeated(HALF_BITS, n as int));
                all
            },
        };
        self.base_score = score;
    }

    /// The fit is configured: the margins of the intercept, and of the training matrix
    /// under the trees the booster still holds.
    pub fn finish_configure(&mut self, base_margin: Vec<u32>, constant_hessian: bool, train_cache: Vec<u32>)
        ensures
            old(self).configured ==> *final(self) == *old(self),
            !old(self).configured ==> *final(self) == (Learner {
                base_margin,
                train_cache,
                configured: true,
                booster: match old(self).booster {
                    Booster::Tree(t) => Booster::Tree(GBTree { constant_hessian, ..t }),
                    Booster::Linear(l) => Booster::Linear(l),
                },
                ..*old(self)
            }),
    {
        if self.configured {
            return ;
        }
        self.base_margin = base_margin;
        match &mut self.booster {
            Booster::Tree(t) => t.set_constant_hessian(constant_hessian),
            Booster::Linear(_) => {},
        }
        self.train_cache = train_cache;
        self.configured = true;
    }

    /// Begin a boosting round: reseed by the rounds there are, where the fit asks for that. It
    /// comes once the learner is configured and ahead of every draw of the round: the trees it
    /// drops, then the gradients of what is left, then the trees it grows.
    pub fn begin_round(&mut self)
        requires
            old(self).booster matches Booster::Tree(t) ==> t.model.round_trees() <= usize::MAX,
        ensures
            *final(self) == (Learner { ctx: final(self).ctx, ..*old(self) }),
            !old(self).ctx.seed_per_iteration ==> final(self).ctx == old(self).ctx,
            old(self).ctx.seed_per_iteration ==> {
                &&& final(self).ctx == (Context { rng: final(self).ctx.rng, ..old(self).ctx })
                &&& final(self).ctx.rng.wf()
                &&& final(self).ctx.rng.stands_at(iteration_seed(old(self).ctx.seed, old(self).booster.rounds()), 0)
            },
    {
        let rounds: usize = self.boosted_rounds();
        self.ctx.seed_for_iteration(rounds);
    }

    /// Every tree in the model, or an empty range for a linear booster.
    pub fn all_trees(&self) -> (range: TreeRange)
        ensures
            range == (TreeRange {
                begin: 0,
                end: match self.booster {
                    Booster::Tree(t) => t.model.trees.len(),
                    Booster::Linear(_) => 0,
                },
            }),
    {
        match &self.booster {
            Booster::Tree(t) => TreeRange { begin: 0, end: t.model.num_trees() },
            Booster::Linear(_) => TreeRange { begin: 0, end: 0 },
        }
    }

    /// Continue from an already trained model.
    ///
    /// The ensemble and the intercept are inherited; the parameters are not. A model with
    /// dropout is refused, once its trees were taken over: dropout rescales every existing
    /// tree, so the weights a continued fit would inherit are not the ones it would have
    /// produced. So is a model of the other kind.
    pub fn continue_from(&mut self, base: Self) -> (result: Result<(), Error>)
        ensures
            match (old(self).booster, base.booster) {
                (Booster::Tree(dst), Booster::Tree(src)) => {
                    &&& result is Ok <==> src.dart is None
                    &&& final(self).booster == Booster::Tree(GBTree { model: src.model, ..dst })
                    &&& result matches Err(e) ==> e.refuses(
                        "booster"@,
                        "continuing from a `dart` model is not supported: dropout rescales every existing tree, so the weights a continued fit would inherit are not the ones it would have produced"@,
                    )
                },
                (Booster::Linear(_), Booster::Linear(src)) => {
                    result is Ok && final(self).booster == Booster::<T>::Linear(src)
                },
                _ => {
                    &&& result matches Err(e) && e.refuses(
                        "booster"@,
                        "cannot continue a `"@ + old(self).booster.label() + "` fit from a `"@ + base.booster.label()
                            + "` model"@,
                    )
                    &&& final(self).booster == old(self).booster
                },
            },
            result is Ok ==> final(self).base_score_override == Some(base.base_score),
            result is Err ==> final(self).base_score_override == old(self).base_score_override,
            *final(self) == (Learner {
                booster: final(self).booster,
                base_score_override: final(self).base_score_override,
                ..*old(self)
            }),
    {
        let mut reason: String = "cannot continue a `".to_owned();
        reason.append(self.booster.name());
        reason.append("` fit from a `");
        reason.append(base.booster.name());
        reason.append("` model");
        let mut dart: bool = false;
        match (&mut self.booster, base.booster) {
            (Booster::Tree(dst), Booster::Tree(src)) => {
                dart = src.is_dart();
                dst.model = src.model;
            },
            (Booster::Linear(dst), Booster::Linear(src)) => {
                *dst = src;
            },
            _ => {
                return Err(Error::invalid("booster", reason));
            },
        }
        if dart {
            return Err(
                Error::invalid(
                    "booster",
                    "continuing from a `dart` model is not supported: dropout rescales every existing tree, so the weights a continued fit would inherit are not the ones it would have produced".to_owned(),
                ),
            );
        }
        // The intercept was estimated once, by the fit that produced the base model;
        // estimating it again here would shift every existing tree.
        self.base_score_override = Some(base.base_score);
        Ok(())
    }

    /// Whether the booster already holds trees.
    pub fn has_trees(&self) -> (yes: bool)
        ensures
            yes == (self.booster matches Booster::Tree(t) && t.model.trees.len() > 0),
    {
        match &self.booster {
            Booster::Tree(t) => t.model.num_trees() > 0,
            Booster::Linear(_) => false,
        }
    }

    /// Boosting rounds that the base model of a continued fit can supply.
    pub fn base_rounds(&self) -> (n: usize)
        requires
            self.booster matches Booster::Tree(t) ==> t.model.round_trees() <= usize::MAX,
        ensures
            n == (match self.booster {
                Booster::Tree(_) => self.booster.rounds(),
                Booster::Linear(_) => 0,
            }),
    {
        match &self.booster {
            Booster::Tree(t) => t.model.num_rounds(),
            Booster::Linear(_) => 0,
        }
    }

    /// A learner of a model that was read back, with nothing of its training.
    pub fn from_model(booster: Booster<T>, base_score: Vec<u32>, base_margin: Vec<u32>) -> (learner: Self)
        ensures
            learner.ctx.nthread == 0,
            learner.ctx.seed == 0,
            !learner.ctx.seed_per_iteration,
            learner.ctx.verbosity == Verbosity::Warning,
            learner.ctx.rng.wf(),
            learner.ctx.rng.stands_at(0, 0),
            learner.booster == booster,
            learner.base_score == base_score,
            learner.base_margin == base_margin,
            learner.base_score_override is Some,
            learner.base_score_override->0@ == base_score@,
            learner.boost_from_average,
            !learner.configured,
            learner.train_cache.len() == 0,
    {
        let mut copy: Vec<u32> = Vec::with_capacity(base_score.len());
        copy.extend_from_slice(base_score.as_slice());
        assert(copy@ =~= base_score@);
        Learner {
            ctx: Context::default(),
            booster,
            base_score,
            base_margin,
            base_score_override: Some(copy),
            boost_from_average: true,
            configured: false,
            train_cache: Vec::new(),
        }
    }
}

/// An estimate with as many values as there are groups.
fn resize(estimated: Vec<u32>, n: usize) -> (out: Vec<u32>)
    ensures
        out@ == resized(estimated@, n as int),
{
    let last: u32 = if estimated.len() == 0 {
        HALF_BITS
    } else {
        estimated[estimated.len() - 1]
    };
    let mut out: Vec<u32> = Vec::with_capacity(n);
    let mut i: usize = 0;
    while i < n
        invariant
            i <= n,
            last == (if estimated.len() == 0 {
                HALF_BITS
            } else {
                estimated@.last()
            }),
            out.len() == i,
            forall|k: int| 0 <= k < i ==> #[trigger] out[k] == resized(estimated@, n as int)[k],
        decreases n - i,
    {
        out.push(
            if i < estimated.len() {
                estimated[i]
            } else {
                last
            },
        );
        i += 1;
    }
    assert(out@ =~= resized(estimated@, n as int));
    out
}

/// The intercept has one entry per group. A given vector of that length is used as it stands, and
/// otherwise its first entry for every group. Without one the estimate is used where the fit starts
/// from the average, its last entry again for the groups it lacks, and a half for every group where
/// the fit does not.
pub proof fn lemma_intercept(given: Option<Vec<u32>>, from_average: bool, estimated: Seq<u32>, n: int, g: int)
    requires
        0 <= g < n,
    ensures
        intercept(given, from_average, estimated, n).len() == n,
        given matches Some(b) && b.len() == n ==> intercept(given, from_average, estimated, n)[g] == given->0[g],
        given matches Some(b) && b.len() != n ==> intercept(given, from_average, estimated, n)[g] == given->0[0],
        given is None && from_average && g < estimated.len() ==> intercept(given, from_average, estimated, n)[g]
            == estimated[g],
        given is None && from_average && 0 < estimated.len() <= g ==> intercept(given, from_average, estimated, n)[g]
            == estimated[estimated.len() - 1],
        given is None && (!from_average || estimated.len() == 0) ==> intercept(given, from_average, estimated, n)[g]
            == 0x3F00_0000,
{
}

/// Telling a booster its number of outputs changes what it says of that and nothing else.
pub proof fn lemma_with_groups<T>(booster: Booster<T>, n: usize)
    requires
        n >= 1,
    ensures
        with_groups(booster, n).groups() == n,
        with_groups(booster, n).features() == booster.features(),
        with_groups(booster, n).label() == booster.label(),
        booster matches Booster::Tree(t) ==> with_groups(booster, n) matches Booster::Tree(u) && u.param == t.param
            && u.dart == t.dart && u.model.trees == t.model.trees && u.model.tree_info == t.model.tree_info
            && u.model.tree_weight == t.model.tree_weight && u.trees_to_update == t.trees_to_update,
        booster matches Booster::Linear(l) ==> with_groups(booster, n) matches Booster::Linear(m) && m.weights
            == l.weights && m.num_boosted_rounds == l.num_boosted_rounds,
{
}

} // verus!
