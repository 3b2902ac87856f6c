//! The gradient boosted model: the tree ensemble and one boosting round.
//!
//! A round grows `num_output_group * num_parallel_tree` trees. Each output group has its own
//! column of gradients and its own column of the prediction buffer, and `tree_info` records
//! which group a tree belongs to.

use vstd::prelude::*;

use crate::data::DMatrix;
use crate::float_bits::{le, le_spec, lt, lt_spec, rank};
use crate::gpu::grower::GpuHistGrower;
use crate::gpu::growth::GrownTree;
use crate::parameters::{DartNormalizeType, DartParameters, DartSampleType, ProcessType, TreeUpdaterName};
use crate::tree::param::TrainParam;

verus! {

/// The bits of one.
pub const ONE_BITS: u32 = 0x3F80_0000;

/// The dropout settings a booster runs with.
#[derive(Clone, Copy, Debug, PartialEq, Eq, Structural)]
pub struct DartConfig {
    pub sample_type: DartSampleType,
    pub normalize_type: DartNormalizeType,
    pub rate_drop: u32,
    pub one_drop: bool,
    pub skip_drop: u32,
    /// The learning rate, which the normalisation reads.
    pub learning_rate: u32,
}

impl DartConfig {
    pub fn from_parameters(dart: &DartParameters) -> (config: Self)
        ensures
            config == (DartConfig {
                sample_type: dart.sample_type,
                normalize_type: dart.normalize_type,
                rate_drop: dart.rate_drop,
                one_drop: dart.one_drop,
                skip_drop: dart.skip_drop,
                learning_rate: dart.tree.eta,
            }),
    {
        DartConfig {
            sample_type: dart.sample_type,
            normalize_type: dart.normalize_type,
            rate_drop: dart.rate_drop,
            one_drop: dart.one_drop,
            skip_drop: dart.skip_drop,
            learning_rate: dart.tree.eta,
        }
    }
}

/// The larger of a number and one.
pub open spec fn at_least_one(n: int) -> int {
    if n < 1 {
        1
    } else {
        n
    }
}

/// The ensemble produced by boosting.
#[derive(Clone, Debug)]
pub struct GBTreeModel<T> {
    pub trees: Vec<T>,
    /// Output group of each tree.
    pub tree_info: Vec<u32>,
    /// Per-tree weight: one, unless dropout rescaled it.
    pub tree_weight: Vec<u32>,
    pub num_feature: usize,
    /// Trees grown per boosting round and output group.
    pub num_parallel_tree: u32,
    /// Outputs per row.
    pub num_output_group: usize,
    /// One tree carries a value for every output, so that a round grows none per group.
    pub multi_output: bool,
}

impl<T> GBTreeModel<T> {
    pub fn new(num_feature: usize) -> (model: Self)
        ensures
            model.trees.len() == 0,
            model.tree_info.len() == 0,
            model.tree_weight.len() == 0,
            model.num_feature == num_feature,
            model.num_parallel_tree == 1,
            model.num_output_group == 1,
            !model.multi_output,
    {
        GBTreeModel {
            trees: Vec::new(),
            tree_info: Vec::new(),
            tree_weight: Vec::new(),
            num_feature,
            num_parallel_tree: 1,
            num_output_group: 1,
            multi_output: false,
        }
    }

    /// Weight of tree `i`; one unless dropout has rescaled it.
    pub fn weight_of(&self, i: usize) -> (w: u32)
        ensures
            w == (if i < self.tree_weight.len() {
                self.tree_weight[i as int]
            } else {
                ONE_BITS
            }),
            i >= self.tree_weight.len() ==> w == 0x3F80_0000,
    {
        if i < self.tree_weight.len() {
            self.tree_weight[i]
        } else {
            ONE_BITS
        }
    }

    pub fn num_trees(&self) -> (n: usize)
        ensures
            n == self.trees.len(),
    {
        self.trees.len()
    }

    /// Groups that a round grows trees for: every output, unless one tree covers them all.
    pub open spec fn tree_groups(&self) -> int {
        if self.multi_output {
            1
        } else {
            at_least_one(self.num_output_group as int)
        }
    }

    /// The groups that a round grows trees for.
    pub fn num_tree_groups(&self) -> (n: usize)
        ensures
            n == self.tree_groups(),
    {
        if self.multi_output || self.num_output_group == 0 {
            1
        } else {
            self.num_output_group
        }
    }

    /// Trees a single boosting round contributes.
    pub open spec fn round_trees(&self) -> int {
        at_least_one(self.num_parallel_tree as int) * self.tree_groups()
    }

    pub fn trees_per_round(&self) -> (n: usize)
        requires
            self.round_trees() <= usize::MAX,
        ensures
            n == self.round_trees(),
            n >= 1,
    {
        let parallel: usize = if self.num_parallel_tree == 0 {
            1
        } else {
            self.num_parallel_tree as usize
        };
        let groups: usize = self.num_tree_groups();
        assert(parallel * groups >= 1) by (nonlinear_arith)
            requires
                parallel >= 1,
                groups >= 1,
        ;
        parallel * groups
    }

    /// Boosting rounds represented by the ensemble.
    pub fn num_rounds(&self) -> (n: usize)
        requires
            self.round_trees() <= usize::MAX,
        ensures
            n == self.trees.len() as int / self.round_trees(),
    {
        let per: usize = self.trees_per_round();
        self.trees.len() / per
    }

    /// The output group tree `i` belongs to.
    pub fn group_of(&self, i: usize) -> (group: usize)
        ensures
            group == (if i < self.tree_info.len() {
                self.tree_info[i as int] as usize
            } else {
                0
            }),
    {
        if i < self.tree_info.len() {
            self.tree_info[i] as usize
        } else {
            0
        }
    }

    /// Every tree has a group and a weight.
    pub open spec fn wf(&self) -> bool {
        self.tree_info.len() == self.trees.len() && self.tree_weight.len() == self.trees.len()
    }

    /// Add a tree of a group.
    pub fn push_tree(&mut self, tree: T, group: u32, weight: u32)
        requires
            old(self).wf(),
        ensures
            final(self).wf(),
            final(self).trees@ == old(self).trees@.push(tree),
            final(self).tree_info@ == old(self).tree_info@.push(group),
            final(self).tree_weight@ == old(self).tree_weight@.push(weight),
            final(self).num_feature == old(self).num_feature,
            final(self).num_parallel_tree == old(self).num_parallel_tree,
            final(self).num_output_group == old(self).num_output_group,
            final(self).multi_output == old(self).multi_output,
    {
        self.trees.push(tree);
        self.tree_info.push(group);
        self.tree_weight.push(weight);
    }
}

/// An ensemble made of whole rounds counts as many rounds.
pub proof fn lemma_whole_rounds(trees: int, per_round: int, rounds: int)
    requires
        per_round >= 1,
        rounds >= 0,
        trees == rounds * per_round,
    ensures
        trees / per_round == rounds,
{
    vstd::arithmetic::div_mod::lemma_fundamental_div_mod_converse(trees, per_round, rounds, 0);
}

/// The weights of a linear model, and its shape.
#[derive(Clone, Debug)]
pub struct LinearModel {
    pub weights: Vec<u32>,
    pub num_feature: usize,
    pub num_output_group: usize,
    pub num_boosted_rounds: usize,
}

/// A tree booster.
#[derive(Clone, Debug)]
pub struct GBTree<T> {
    pub model: GBTreeModel<T>,
    pub param: TrainParam,
    /// Dropout settings; none makes this an ordinary booster.
    pub dart: Option<DartConfig>,
    /// Trees dropped for the round being grown.
    pub dropped: Vec<usize>,
    /// The ensemble that an updating fit is revisiting.
    pub trees_to_update: Vec<T>,
    /// Whether the objective's hessian never changes.
    pub constant_hessian: bool,
}

/// The first of the updaters that does not rewrite trees.
pub open spec fn grower_of(updaters: Seq<TreeUpdaterName>, n: int) -> Option<TreeUpdaterName>
    decreases n,
{
    if n <= 0 {
        None
    } else {
        match grower_of(updaters, n - 1) {
            Some(u) => Some(u),
            None => if updaters[n - 1].modifies() {
                None
            } else {
                Some(updaters[n - 1])
            },
        }
    }
}

/// What a round does with a grower that has to be made ready.
#[derive(Clone, Copy, Debug, PartialEq, Eq, Structural)]
pub enum Preparation {
    /// The columns are sorted by value, once.
    SortColumns,
    /// The cuts are made and the matrix is packed, once.
    PackMatrix,
    /// The cuts are made and the matrix is binned, once.
    BinMatrix,
    /// Nothing is made ahead of a round.
    Nothing,
}

/// What each grower needs ahead of its first round.
pub open spec fn preparation_of(kind: Option<TreeUpdaterName>) -> Preparation {
    match kind {
        Some(TreeUpdaterName::GrowColMaker) => Preparation::SortColumns,
        // Sketched anew every round from the current hessians.
        Some(TreeUpdaterName::GrowHistMaker) => Preparation::Nothing,
        Some(TreeUpdaterName::GrowGpuHist) => Preparation::PackMatrix,
        Some(_) => Preparation::BinMatrix,
        // Existing trees are rewritten.
        None => Preparation::Nothing,
    }
}

/// How a round grows its trees.
#[derive(Clone, Copy, Debug, PartialEq, Eq, Structural)]
pub enum RoundKind {
    /// One tree covering every output.
    MultiOutput,
    /// One binned matrix per group, from its hessians.
    Approximate,
    /// One grower for all groups.
    Shared(TreeUpdaterName),
    /// Trees that exist are rewritten.
    Update,
}

/// How a round of a booster grows its trees.
pub open spec fn round_kind_of(kind: Option<TreeUpdaterName>, multi_output: bool, n_groups: int) -> RoundKind {
    match kind {
        None => RoundKind::Update,
        Some(u) => if multi_output && n_groups > 1 {
            RoundKind::MultiOutput
        } else if u == TreeUpdaterName::GrowHistMaker {
            RoundKind::Approximate
        } else {
            RoundKind::Shared(u)
        },
    }
}

/// One tree of a round: its group, and whether the grower has to forget the tree before it.
#[derive(Clone, Copy, Debug, PartialEq, Eq, Structural)]
pub struct TreeStep {
    pub group: u32,
    pub reset: bool,
}

impl LinearModel {
    /// Take over the weights that a round came to, and count the round.
    pub fn file_round(&mut self, weights: Vec<u32>)
        requires
            old(self).num_boosted_rounds < usize::MAX,
        ensures
            *final(self) == (LinearModel {
                weights,
                num_boosted_rounds: (old(self).num_boosted_rounds + 1) as usize,
                ..*old(self)
            }),
    {
        self.weights = weights;
        self.num_boosted_rounds = self.num_boosted_rounds + 1;
    }
}

impl<T> GBTree<T> {
    /// A booster that has grown nothing yet: no trees, none dropped or set aside.
    pub open spec fn fresh(&self, num_feature: usize, param: TrainParam) -> bool {
        &&& self.model.trees.len() == 0
        &&& self.model.wf()
        &&& self.model.num_feature == num_feature
        &&& self.model.num_parallel_tree == param.num_parallel_tree
        &&& self.model.num_output_group == 1
        &&& self.model.multi_output == param.multi_output_tree
        &&& self.param == param
        &&& self.dropped.len() == 0
        &&& self.trees_to_update.len() == 0
        &&& !self.constant_hessian
    }

    /// The ensemble is made of `n` whole rounds, each of the trees that a round of this booster
    /// grows.
    pub open spec fn holds_rounds(&self, n: int) -> bool {
        &&& self.param.num_parallel_tree >= 1
        &&& self.model.num_parallel_tree == self.param.num_parallel_tree
        &&& self.model.multi_output == self.param.multi_output_tree
        &&& 0 <= n
        &&& self.model.trees.len() == n * self.model.round_trees()
    }

    pub fn new(num_feature: usize, param: TrainParam) -> (tree: Self)
        ensures
            tree.fresh(num_feature, param),
            tree.param == param,
            tree.model.num_feature == num_feature,
            tree.model.num_parallel_tree == param.num_parallel_tree,
            tree.model.multi_output == param.multi_output_tree,
            tree.model.num_output_group == 1,
            tree.model.trees.len() == 0 && tree.dropped.len() == 0 && tree.trees_to_update.len() == 0,
            !tree.constant_hessian,
            tree.dart is None,
            param.num_parallel_tree >= 1 ==> tree.holds_rounds(0),
    {
        let mut model: GBTreeModel<T> = GBTreeModel::new(num_feature);
        model.num_parallel_tree = param.num_parallel_tree;
        model.multi_output = param.multi_output_tree;
        GBTree {
            model,
            param,
            dart: None,
            dropped: Vec::new(),
            trees_to_update: Vec::new(),
            constant_hessian: false,
        }
    }

    /// Say whether the objective's hessian is constant.
    pub fn set_constant_hessian(&mut self, constant: bool)
        ensures
            *final(self) == (GBTree { constant_hessian: constant, ..*old(self) }),
    {
        self.constant_hessian = constant;
    }

    /// Drop a random subset of the trees before every round.
    pub fn set_dart(&mut self, dart: DartConfig)
        ensures
            *final(self) == (GBTree { dart: Some(dart), ..*old(self) }),
    {
        self.dart = Some(dart);
    }

    /// Whether dropout is in effect.
    pub fn is_dart(&self) -> (yes: bool)
        ensures
            yes == (self.dart is Some),
    {
        self.dart.is_some()
    }

    pub fn param(&self) -> (param: &TrainParam)
        ensures
            *param == self.param,
    {
        &self.param
    }

    /// Set how many output groups a round grows trees for.
    pub fn set_num_output_group(&mut self, n: usize)
        ensures
            final(self).model.num_output_group == at_least_one(n as int),
            *final(self) == (GBTree {
                model: GBTreeModel { num_output_group: final(self).model.num_output_group, ..old(self).model },
                ..*old(self)
            }),
            old(self).holds_rounds(0) ==> final(self).holds_rounds(0),
    {
        self.model.num_output_group = if n == 0 {
            1
        } else {
            n
        };
        assert(0 * self.model.round_trees() == 0) by (nonlinear_arith);
    }

    /// The updater that grows trees this round; none where every stage only rewrites
    /// existing ones.
    pub fn grower_kind(&self) -> (kind: Option<TreeUpdaterName>)
        ensures
            kind == grower_of(self.param.updaters@, self.param.updaters.len() as int),
    {
        let updaters: &Vec<TreeUpdaterName> = &self.param.updaters;
        let mut kind: Option<TreeUpdaterName> = None;
        let mut i: usize = 0;
        while i < updaters.len()
            invariant
                *updaters == self.param.updaters,
                i <= updaters.len(),
                kind == grower_of(updaters@, i as int),
            decreases updaters.len() - i,
        {
            if kind.is_none() && !updaters[i].can_modify_tree() {
                kind = Some(updaters[i]);
            }
            i += 1;
        }
        kind
    }

    /// Make ready for a fit: an updating fit sets the ensemble aside and starts empty, so
    /// that one that stops early leaves a shorter model rather than a half-rewritten one.
    /// Hands back what the grower needs ahead of its first round.
    pub fn configure(&mut self) -> (needs: Preparation)
        ensures
            needs == preparation_of(grower_of(old(self).param.updaters@, old(self).param.updaters.len() as int)),
            old(self).param.process_type == ProcessType::Update && old(self).trees_to_update.len() == 0 ==> {
                &&& final(self).trees_to_update@ == old(self).model.trees@
                &&& final(self).model.trees.len() == 0
                &&& final(self).model.tree_info.len() == 0
                &&& final(self).model.tree_weight.len() == 0
                &&& final(self).model.num_feature == old(self).model.num_feature
                &&& final(self).model.num_parallel_tree == old(self).model.num_parallel_tree
                &&& final(self).model.num_output_group == old(self).model.num_output_group
                &&& final(self).model.multi_output == old(self).model.multi_output
                &&& *final(self) == (GBTree {
                    model: final(self).model,
                    trees_to_update: final(self).trees_to_update,
                    ..*old(self)
                })
            },
            !(old(self).param.process_type == ProcessType::Update && old(self).trees_to_update.len() == 0)
                ==> *final(self) == *old(self),
    {
        if self.param.process_type == ProcessType::Update && self.trees_to_update.len() == 0 {
            let mut trees: Vec<T> = Vec::new();
            std::mem::swap(&mut trees, &mut self.model.trees);
            self.trees_to_update = trees;
            self.model.tree_info = Vec::new();
            self.model.tree_weight = Vec::new();
        }
        match self.grower_kind() {
            Some(TreeUpdaterName::GrowColMaker) => Preparation::SortColumns,
            Some(TreeUpdaterName::GrowHistMaker) => Preparation::Nothing,
            Some(TreeUpdaterName::GrowGpuHist) => Preparation::PackMatrix,
            Some(_) => Preparation::BinMatrix,
            None => Preparation::Nothing,
        }
    }

    /// The number of outputs one device-grown tree covers.
    pub fn n_targets(&self) -> (n: usize)
        ensures
            n == (if self.param.multi_output_tree {
                at_least_one(self.model.num_output_group as int)
            } else {
                1
            }),
    {
        if self.param.multi_output_tree && self.model.num_output_group > 1 {
            self.model.num_output_group
        } else {
            1
        }
    }

    /// How this round grows its trees.
    pub fn round_kind(&self) -> (kind: RoundKind)
        ensures
            kind == round_kind_of(
                grower_of(self.param.updaters@, self.param.updaters.len() as int),
                self.param.multi_output_tree,
                at_least_one(self.model.num_output_group as int),
            ),
    {
        match self.grower_kind() {
            None => RoundKind::Update,
            Some(u) => if self.param.multi_output_tree && self.model.num_output_group > 1 {
                RoundKind::MultiOutput
            } else if u == TreeUpdaterName::GrowHistMaker {
                RoundKind::Approximate
            } else {
                RoundKind::Shared(u)
            },
        }
    }
}

/// The trees of a round with one grower: group after group, each of them all its trees.
pub open spec fn step_at(parallel: int, i: int) -> TreeStep {
    TreeStep { group: (i / parallel) as u32, reset: i > 0 }
}

/// The trees that a round with one grower grows, in order. The grower is reset before every
/// tree but the first.
pub fn round_steps(n_groups: u32, num_parallel_tree: u32) -> (steps: Vec<TreeStep>)
    requires
        n_groups * num_parallel_tree <= usize::MAX,
    ensures
        steps.len() == n_groups * num_parallel_tree,
        forall|i: int|
            0 <= i < steps.len() ==> #[trigger] steps[i] == step_at(num_parallel_tree as int, i),
{
    let mut steps: Vec<TreeStep> = Vec::new();
    let mut gid: u32 = 0;
    let ghost p = num_parallel_tree as int;
    while gid < n_groups
        invariant
            p == num_parallel_tree,
            gid <= n_groups,
            steps.len() == gid * p,
            forall|i: int| 0 <= i < steps.len() ==> #[trigger] steps[i] == step_at(p, i),
        decreases n_groups - gid,
    {
        let mut k: u32 = 0;
        while k < num_parallel_tree
            invariant
                p == num_parallel_tree,
                gid < n_groups,
                k <= num_parallel_tree,
                steps.len() == gid * p + k,
                forall|i: int| 0 <= i < steps.len() ==> #[trigger] steps[i] == step_at(p, i),
            decreases num_parallel_tree - k,
        {
            proof {
                vstd::arithmetic::div_mod::lemma_fundamental_div_mod_converse(gid * p + k, p, gid as int, k as int);
                assert(0 <= gid * p) by (nonlinear_arith)
                    requires
                        0 <= gid,
                        0 <= p,
                ;
                if gid > 0 {
                    assert(gid * p > 0) by (nonlinear_arith)
                        requires
                            0 < gid,
                            0 < p,
                    ;
                }
            }
            steps.push(TreeStep { group: gid, reset: !(gid == 0 && k == 0) });
            k += 1;
        }
        assert((gid + 1) * p == gid * p + p) by (nonlinear_arith);
        gid += 1;
    }
    steps
}

/// One group's column of an interleaved buffer.
pub fn gather_group(values: &[u32], n_rows: usize, n_groups: usize, gid: usize) -> (column: Vec<u32>)
    requires
        values.len() == n_rows * n_groups,
        gid < n_groups,
    ensures
        column.len() == n_rows,
        forall|r: int| 0 <= r < n_rows ==> #[trigger] column[r] == values[r * n_groups + gid],
{
    let mut column: Vec<u32> = Vec::with_capacity(n_rows);
    let cells: usize = values.len();
    let mut r: usize = 0;
    while r < n_rows
        invariant
            cells == values.len(),
            cells == n_rows * n_groups,
            gid < n_groups,
            r <= n_rows,
            column.len() == r,
            forall|q: int| 0 <= q < r ==> #[trigger] column[q] == values[q * n_groups + gid],
        decreases n_rows - r,
    {
        assert(0 <= r * n_groups && r * n_groups + gid < n_rows * n_groups) by (nonlinear_arith)
            requires
                0 <= r,
                r + 1 <= n_rows,
                0 <= gid < n_groups,
        ;
        column.push(values[r * n_groups + gid]);
        r += 1;
    }
    column
}

/// The slot in the set-aside ensemble of tree `i` of group `gid` of a round.
pub open spec fn update_slot(round: int, per_tree: int, n_groups: int, gid: int, i: int) -> int {
    round * per_tree * n_groups + gid * per_tree + i
}

/// The trees that an updating round rewrites: their slots, group after group, as far as the
/// set-aside ensemble has them.
pub fn update_slots(trees: usize, per_tree: usize, n_groups: usize, available: usize) -> (slots: Vec<(usize, usize)>)
    requires
        per_tree >= 1,
        n_groups >= 1,
        per_tree * n_groups <= usize::MAX,
        trees + per_tree * n_groups <= usize::MAX,
    ensures
        ({
            let round = trees as int / (per_tree * n_groups);
            &&& slots.len() <= per_tree * n_groups
            &&& forall|k: int|
                0 <= k < slots.len() ==> (#[trigger] slots[k]).0 == update_slot(
                    round,
                    per_tree as int,
                    n_groups as int,
                    k / (per_tree as int),
                    k % (per_tree as int),
                ) && slots[k].1 == k / (per_tree as int) && slots[k].0 < available
            &&& slots.len() < per_tree * n_groups ==> round * per_tree * n_groups + slots.len() >= available
        }),
{
    let per_round: usize = per_tree * n_groups;
    assert(per_round >= 1) by (nonlinear_arith)
        requires
            per_tree >= 1,
            n_groups >= 1,
            per_round == per_tree * n_groups,
    ;
    let round: usize = trees / per_round;
    let ghost p = per_tree as int;
    let ghost g = n_groups as int;
    proof {
        vstd::arithmetic::div_mod::lemma_fundamental_div_mod(trees as int, per_round as int);
        assert(round * per_round <= trees) by (nonlinear_arith)
            requires
                trees == per_round * round + trees as int % per_round as int,
                trees as int % per_round as int >= 0,
        ;
        assert(round * p * g == round * per_round) by (nonlinear_arith)
            requires
                per_round == p * g,
        ;
    }
    let base: usize = round * per_round;
    let mut slots: Vec<(usize, usize)> = Vec::new();
    let mut k: usize = 0;
    while k < per_round
        invariant
            p == per_tree,
            g == n_groups,
            p >= 1,
            per_round == p * g,
            base == round * p * g,
            round == trees as int / (per_tree * n_groups),
            base + per_round <= usize::MAX,
            k <= per_round,
            slots.len() == k,
            forall|j: int|
                0 <= j < k ==> (#[trigger] slots[j]).0 == update_slot(round as int, p, g, j / p, j % p) && slots[j].1 == j / p
                    && slots[j].0 < available,
        decreases per_round - k,
    {
        let slot: usize = base + k;
        proof {
            vstd::arithmetic::div_mod::lemma_fundamental_div_mod(k as int, p);
            assert(p * (k as int / p) == (k as int / p) * p) by (nonlinear_arith);
        }
        if slot >= available {
            return slots;
        }
        slots.push((slot, k / per_tree));
        k += 1;
    }
    slots
}

/// The stages that rewrite a tree, in the order the pipeline names them.
pub open spec fn modifiers_of(updaters: Seq<TreeUpdaterName>, n: int) -> Seq<TreeUpdaterName>
    decreases n,
{
    if n <= 0 {
        Seq::empty()
    } else {
        let rest = modifiers_of(updaters, n - 1);
        if updaters[n - 1] is Refresh || updaters[n - 1] is Prune {
            rest.push(updaters[n - 1])
        } else {
            rest
        }
    }
}

pub fn modifiers(updaters: &[TreeUpdaterName]) -> (stages: Vec<TreeUpdaterName>)
    ensures
        stages@ == modifiers_of(updaters@, updaters.len() as int),
{
    let mut stages: Vec<TreeUpdaterName> = Vec::new();
    let mut i: usize = 0;
    while i < updaters.len()
        invariant
            i <= updaters.len(),
            stages@ == modifiers_of(updaters@, i as int),
        decreases updaters.len() - i,
    {
        if matches!(updaters[i], TreeUpdaterName::Refresh | TreeUpdaterName::Prune) {
            stages.push(updaters[i]);
        }
        i += 1;
    }
    stages
}

/// Whether the stages changed a tree, so that the grower's row sets no longer describe it: a
/// refresh always does, a pruning where it removed nodes.
pub fn tree_modified(stages: &[TreeUpdaterName], pruned: &[usize]) -> (modified: bool)
    requires
        pruned.len() == stages.len(),
    ensures
        modified == exists|i: int|
            0 <= i < stages.len() && ((#[trigger] stages[i]) is Refresh || (stages[i] is Prune && pruned[i] > 0)),
{
    let mut i: usize = 0;
    while i < stages.len()
        invariant
            pruned.len() == stages.len(),
            i <= stages.len(),
            forall|j: int|
                0 <= j < i ==> !((#[trigger] stages[j]) is Refresh || (stages[j] is Prune && pruned[j] > 0)),
        decreases stages.len() - i,
    {
        match stages[i] {
            TreeUpdaterName::Refresh => {
                assert(stages[i as int] is Refresh);
                return true;
            },
            TreeUpdaterName::Prune => if pruned[i] > 0 {
                assert(stages[i as int] is Prune && pruned[i as int] > 0);
                return true;
            },
            _ => {},
        }
        i += 1;
    }
    false
}

/// Of the first `n` trees, those whose draw falls below their threshold.
pub open spec fn below_threshold(draws: Seq<u32>, thresholds: Seq<u32>, n: int) -> Seq<usize>
    decreases n,
{
    if n <= 0 {
        Seq::empty()
    } else {
        let rest = below_threshold(draws, thresholds, n - 1);
        if lt_spec(draws[n - 1], thresholds[n - 1]) {
            rest.push((n - 1) as usize)
        } else {
            rest
        }
    }
}

/// The draws that dropout is decided by.
#[derive(Clone, Debug)]
pub struct DropDraws {
    /// Whether the whole round is skipped is decided by this one.
    pub skip: u32,
    /// One per tree.
    pub each: Vec<u32>,
    /// What each is compared with: the rate, or the tree's share of it by weight.
    pub thresholds: Vec<u32>,
    /// The tree dropped where none was and one has to be.
    pub pick: usize,
    /// The weights have not all decayed to nothing.
    pub alive: bool,
}

/// The trees a round leaves out.
pub open spec fn dropped_of(dart: Option<DartConfig>, n: int, draws: DropDraws) -> Seq<usize> {
    match dart {
        None => Seq::empty(),
        Some(d) => {
            if n == 0 || (lt_spec(0, d.skip_drop) && lt_spec(draws.skip, d.skip_drop)) {
                Seq::empty()
            } else {
                let below = below_threshold(draws.each@, draws.thresholds@, n);
                if below.len() == 0 && d.one_drop && (d.sample_type == DartSampleType::Uniform || draws.alive) {
                    seq![
                        if draws.pick < n {
                            draws.pick
                        } else {
                            (n - 1) as usize
                        },
                    ]
                } else {
                    below
                }
            }
        },
    }
}

/// Pick the trees this round leaves out: none without dropout, for an empty ensemble, and
/// where the whole dropout is skipped.
pub fn choose_dropped(dart: &Option<DartConfig>, n: usize, draws: &DropDraws) -> (dropped: Vec<usize>)
    requires
        draws.each.len() >= n,
        draws.thresholds.len() >= n,
    ensures
        dropped@ == dropped_of(*dart, n as int, *draws),
{
    let mut dropped: Vec<usize> = Vec::new();
    match dart {
        None => {},
        Some(d) => {
            if n == 0 {
                return dropped;
            }
            if lt(0, d.skip_drop) && lt(draws.skip, d.skip_drop) {
                return dropped;
            }
            let mut i: usize = 0;
            while i < n
                invariant
                    draws.each.len() >= n,
                    draws.thresholds.len() >= n,
                    i <= n,
                    dropped@ == below_threshold(draws.each@, draws.thresholds@, i as int),
                decreases n - i,
            {
                if lt(draws.each[i], draws.thresholds[i]) {
                    dropped.push(i);
                }
                i += 1;
            }
            if dropped.len() == 0 && d.one_drop && (d.sample_type == DartSampleType::Uniform || draws.alive) {
                let pick: usize = if draws.pick < n {
                    draws.pick
                } else {
                    n - 1
                };
                dropped.push(pick);
                assert(dropped@ =~= seq![pick]);
            }
        },
    }
    dropped
}

/// Every tree that is dropped is one of the ensemble, and none is dropped twice.
pub proof fn lemma_dropped(dart: Option<DartConfig>, n: int, draws: DropDraws)
    requires
        0 <= n <= usize::MAX,
    ensures
        forall|i: int| 0 <= i < dropped_of(dart, n, draws).len() ==> #[trigger] dropped_of(dart, n, draws)[i] < n,
        forall|i: int, j: int|
            0 <= i < j < dropped_of(dart, n, draws).len() ==> #[trigger] dropped_of(dart, n, draws)[i]
                < #[trigger] dropped_of(dart, n, draws)[j],
{
    lemma_below_threshold(draws.each@, draws.thresholds@, n);
}

proof fn lemma_below_threshold(draws: Seq<u32>, thresholds: Seq<u32>, n: int)
    requires
        0 <= n <= usize::MAX,
    ensures
        forall|i: int|
            0 <= i < below_threshold(draws, thresholds, n).len() ==> #[trigger] below_threshold(
                draws,
                thresholds,
                n,
            )[i] < n,
        forall|i: int, j: int|
            0 <= i < j < below_threshold(draws, thresholds, n).len() ==> #[trigger] below_threshold(
                draws,
                thresholds,
                n,
            )[i] < #[trigger] below_threshold(draws, thresholds, n)[j],
    decreases n,
{
    if n > 0 {
        lemma_below_threshold(draws, thresholds, n - 1);
        let rest = below_threshold(draws, thresholds, n - 1);
        let all = below_threshold(draws, thresholds, n);
        assert forall|i: int| 0 <= i < all.len() implies #[trigger] all[i] < n by {
            if i < rest.len() {
                assert(all[i] == rest[i]);
            }
        }
        assert forall|i: int, j: int| 0 <= i < j < all.len() implies #[trigger] all[i] < #[trigger] all[j] by {
            assert(all[i] == rest[i]);
            if j < rest.len() {
                assert(all[j] == rest[j]);
            }
        }
    }
}

/// The first tree whose running weight reaches the target, or the last.
pub fn weighted_pick(running: &[u32], target: u32) -> (pick: usize)
    requires
        running.len() > 0,
    ensures
        pick < running.len(),
        pick < running.len() - 1 ==> le_spec(target, running[pick as int]),
        forall|i: int| 0 <= i < pick ==> !le_spec(target, #[trigger] running[i]),
{
    let mut i: usize = 0;
    while i < running.len() - 1
        invariant
            running.len() > 0,
            i <= running.len() - 1,
            forall|j: int| 0 <= j < i ==> !le_spec(target, #[trigger] running[j]),
        decreases running.len() - i,
    {
        if le(target, running[i]) {
            return i;
        }
        i += 1;
    }
    i
}

/// The gradient booster a fit runs: an ensemble of trees, or a linear model.
#[derive(Clone, Debug)]
pub enum Booster<T> {
    Tree(GBTree<T>),
    Linear(LinearModel),
}

impl<T> Booster<T> {
    /// The trees, for the callers that only make sense for a tree model.
    pub fn tree(&self) -> (tree: Option<&GBTree<T>>)
        ensures
            tree is Some <==> self is Tree,
            tree matches Some(t) ==> *t == self->Tree_0,
    {
        match self {
            Booster::Tree(t) => Some(t),
            Booster::Linear(_) => None,
        }
    }

    /// The linear model, if this is one.
    pub fn linear(&self) -> (linear: Option<&LinearModel>)
        ensures
            linear is Some <==> self is Linear,
            linear matches Some(l) ==> *l == self->Linear_0,
    {
        match self {
            Booster::Linear(l) => Some(l),
            Booster::Tree(_) => None,
        }
    }

    /// The name this model is recorded under.
    pub open spec fn label(&self) -> Seq<char> {
        match self {
            Booster::Tree(t) => if t.dart is Some {
                "dart"@
            } else {
                "gbtree"@
            },
            Booster::Linear(_) => "gblinear"@,
        }
    }

    pub fn name(&self) -> (name: &'static str)
        ensures
            name@ == self.label(),
            self is Linear ==> name@ == "gblinear"@,
            self matches Booster::Tree(t) ==> name@ == (if t.dart is Some { "dart"@ } else { "gbtree"@ }),
    {
        match self {
            Booster::Tree(t) => if t.is_dart() {
                "dart"
            } else {
                "gbtree"
            },
            Booster::Linear(_) => "gblinear",
        }
    }

    /// Features of the matrix the model was made for.
    pub open spec fn features(&self) -> int {
        match self {
            Booster::Tree(t) => t.model.num_feature as int,
            Booster::Linear(l) => l.num_feature as int,
        }
    }

    pub fn num_feature(&self) -> (n: usize)
        ensures
            n == self.features(),
    {
        match self {
            Booster::Tree(t) => t.model.num_feature,
            Booster::Linear(l) => l.num_feature,
        }
    }

    /// Outputs per row.
    pub open spec fn groups(&self) -> int {
        at_least_one(
            match self {
                Booster::Tree(t) => t.model.num_output_group as int,
                Booster::Linear(l) => l.num_output_group as int,
            },
        )
    }

    pub fn num_output_group(&self) -> (n: usize)
        ensures
            n == self.groups(),
    {
        let n: usize = match self {
            Booster::Tree(t) => t.model.num_output_group,
            Booster::Linear(l) => l.num_output_group,
        };
        if n == 0 {
            1
        } else {
            n
        }
    }

    /// Boosting rounds that the model holds.
    pub open spec fn rounds(&self) -> int {
        match self {
            Booster::Tree(t) => t.model.trees.len() as int / t.model.round_trees(),
            Booster::Linear(l) => l.num_boosted_rounds as int,
        }
    }

    pub fn boosted_rounds(&self) -> (n: usize)
        requires
            self matches Booster::Tree(t) ==> t.model.round_trees() <= usize::MAX,
        ensures
            n == self.rounds(),
    {
        match self {
            Booster::Tree(t) => t.model.num_rounds(),
            Booster::Linear(l) => l.num_boosted_rounds,
        }
    }
}

/// Value of feature `fidx` in row `r`, or nothing where it is missing. The columns of a row may
/// stand in any order; where one stands more than once, its last value counts.
pub fn feature_value(dmat: &DMatrix, r: usize, fidx: u32) -> (value: Option<u32>)
    requires
        dmat.wf(),
        r < dmat.info.num_row,
    ensures
        match value {
            Some(v) => exists|k: int| #[trigger]
                dmat.stands(r as int, k) && dmat.index[k] == fidx && v == dmat.value[k],
            None => !dmat.stores(r as int, fidx as int),
        },
{
    assert(dmat.row_ptr[r as int] <= dmat.row_ptr[r + 1]);
    assert(dmat.row_ptr[r + 1] <= dmat.row_ptr[dmat.info.num_row as int]);
    let first: usize = dmat.row_ptr[r];
    let mut k: usize = dmat.row_ptr[r + 1];
    while k > first
        invariant
            dmat.wf(),
            r < dmat.info.num_row,
            first == dmat.row_ptr[r as int],
            first <= k <= dmat.row_ptr[r + 1],
            dmat.row_ptr[r + 1] <= dmat.index.len(),
            forall|j: int| #[trigger] dmat.in_row(r as int, j) && k <= j ==> dmat.index[j] != fidx,
        decreases k,
    {
        k -= 1;
        if dmat.index[k] == fidx {
            assert(dmat.stands(r as int, k as int));
            return Some(dmat.value[k]);
        }
    }
    None
}

/// The grower a round runs.
pub enum Grower {
    /// Histograms on binned columns.
    Hist,
    /// Sorted columns.
    Exact,
    /// Packed matrix, and the tree it grew last.
    Gpu(Box<GpuHistGrower>, Option<GrownTree>),
}

impl Grower {
    /// Forget the tree before. The device grower keeps nothing between trees but the packed
    /// matrix, which is exactly what must survive.
    pub fn reset(&mut self)
        ensures
            match *old(self) {
                Grower::Gpu(g, _) => *final(self) == Grower::Gpu(g, None),
                other => *final(self) == other,
            },
    {
        match self {
            Grower::Gpu(_, last) => {
                *last = None;
            },
            Grower::Hist => {},
            Grower::Exact => {},
        }
    }
}

/// A round grows one tree per parallel tree where a tree covers every output, and as many for
/// every output where none does: so much more where there are more of either.
pub proof fn lemma_round_trees<T>(model: GBTreeModel<T>)
    ensures
        model.round_trees() >= 1,
        model.multi_output && model.num_parallel_tree >= 1 ==> model.round_trees() == model.num_parallel_tree,
        !model.multi_output && model.num_parallel_tree >= 1 && model.num_output_group >= 1 ==> model.round_trees()
            == model.num_parallel_tree * model.num_output_group,
        model.num_parallel_tree == 0 && (model.multi_output || model.num_output_group == 0) ==> model.round_trees()
            == 1,
{
    let p = at_least_one(model.num_parallel_tree as int);
    let g = model.tree_groups();
    assert(p * g >= 1) by (nonlinear_arith)
        requires
            p >= 1,
            g >= 1,
    ;
}

/// The grower is the first updater that is no synchronisation, refresh or pruning.
pub proof fn lemma_grower_is_first(updaters: Seq<TreeUpdaterName>, i: int)
    requires
        0 <= i < updaters.len(),
        !(updaters[i] is Sync || updaters[i] is Refresh || updaters[i] is Prune),
        forall|j: int|
            0 <= j < i ==> (#[trigger] updaters[j]) is Sync || updaters[j] is Refresh || updaters[j] is Prune,
    ensures
        grower_of(updaters, updaters.len() as int) == Some(updaters[i]),
{
    lemma_grower_none(updaters, i);
    lemma_grower_stays(updaters, i + 1, updaters.len() as int);
}

/// There is no grower where every updater synchronises, refreshes or prunes.
pub proof fn lemma_no_grower(updaters: Seq<TreeUpdaterName>)
    requires
        forall|j: int|
            0 <= j < updaters.len() ==> (#[trigger] updaters[j]) is Sync || updaters[j] is Refresh
                || updaters[j] is Prune,
    ensures
        grower_of(updaters, updaters.len() as int) is None,
{
    lemma_grower_none(updaters, updaters.len() as int);
}

proof fn lemma_grower_none(updaters: Seq<TreeUpdaterName>, n: int)
    requires
        0 <= n <= updaters.len(),
        forall|j: int|
            0 <= j < n ==> (#[trigger] updaters[j]) is Sync || updaters[j] is Refresh || updaters[j] is Prune,
    ensures
        grower_of(updaters, n) is None,
    decreases n,
{
    if n > 0 {
        lemma_grower_none(updaters, n - 1);
    }
}

proof fn lemma_grower_stays(updaters: Seq<TreeUpdaterName>, from: int, n: int)
    requires
        0 <= from <= n <= updaters.len(),
        grower_of(updaters, from) is Some,
    ensures
        grower_of(updaters, n) == grower_of(updaters, from),
    decreases n - from,
{
    if n > from {
        lemma_grower_stays(updaters, from, n - 1);
    }
}

/// Only the exact grower has its columns sorted, only the device grower has its matrix packed, and
/// the approximate grower and the updaters that rewrite trees have nothing made ahead.
pub proof fn lemma_preparations(kind: Option<TreeUpdaterName>)
    ensures
        preparation_of(kind) == Preparation::SortColumns <==> kind == Some(TreeUpdaterName::GrowColMaker),
        preparation_of(kind) == Preparation::PackMatrix <==> kind == Some(TreeUpdaterName::GrowGpuHist),
        preparation_of(kind) == Preparation::Nothing <==> kind is None || kind == Some(
            TreeUpdaterName::GrowHistMaker,
        ),
{
}

/// A round rewrites trees exactly where there is no grower, covers every output with one tree
/// exactly where it may and there are several, and otherwise bins anew for each group exactly where
/// the approximate grower runs; every other grower is shared by the groups and is the one named.
pub proof fn lemma_round_kinds(kind: Option<TreeUpdaterName>, multi_output: bool, n_groups: int)
    ensures
        round_kind_of(kind, multi_output, n_groups) is Update <==> kind is None,
        round_kind_of(kind, multi_output, n_groups) is MultiOutput <==> kind is Some && multi_output && n_groups
            >= 2,
        round_kind_of(kind, multi_output, n_groups) is Approximate <==> kind == Some(
            TreeUpdaterName::GrowHistMaker,
        ) && (!multi_output || n_groups < 2),
        round_kind_of(kind, multi_output, n_groups) matches RoundKind::Shared(u) ==> kind == Some(u),
{
}

/// Group after group: the trees of a group stand together, in the order of the groups, and the
/// grower is fresh for the first tree alone.
pub proof fn lemma_steps_by_group(parallel: int, group: int, k: int)
    requires
        0 <= group <= u32::MAX,
        0 <= k < parallel,
    ensures
        step_at(parallel, group * parallel + k).group == group,
        step_at(parallel, group * parallel + k).reset <==> !(group == 0 && k == 0),
{
    vstd::arithmetic::div_mod::lemma_fundamental_div_mod_converse(group * parallel + k, parallel, group, k);
    assert(group * parallel >= 0) by (nonlinear_arith)
        requires
            group >= 0,
            parallel > 0,
    ;
    if group > 0 {
        assert(group * parallel > 0) by (nonlinear_arith)
            requires
                group > 0,
                parallel > 0,
        ;
    }
}

/// The slots of the set-aside ensemble are taken one after another: tree after tree of a group,
/// group after group of a round, round after round from the first.
pub proof fn lemma_slots_in_order(round: int, per_tree: int, n_groups: int, gid: int, i: int)
    requires
        per_tree >= 1,
        n_groups >= 1,
    ensures
        update_slot(0, per_tree, n_groups, 0, 0) == 0,
        update_slot(round, per_tree, n_groups, gid, i + 1) == update_slot(round, per_tree, n_groups, gid, i) + 1,
        update_slot(round, per_tree, n_groups, gid + 1, 0) == update_slot(round, per_tree, n_groups, gid, per_tree),
        update_slot(round + 1, per_tree, n_groups, 0, 0) == update_slot(round, per_tree, n_groups, n_groups, 0),
{
    assert((gid + 1) * per_tree == gid * per_tree + per_tree) by (nonlinear_arith);
    assert((round + 1) * per_tree * n_groups == round * per_tree * n_groups + n_groups * per_tree)
        by (nonlinear_arith);
    assert(0 * per_tree * n_groups == 0) by (nonlinear_arith);
}

/// The stages that rewrite a tree are the refreshes and prunings and nothing else, one for each
/// that is named and in that order: naming one more after the others adds it at the end.
pub proof fn lemma_modifiers(updaters: Seq<TreeUpdaterName>, next: TreeUpdaterName)
    ensures
        ({
            let stages = modifiers_of(updaters, updaters.len() as int);
            let more = modifiers_of(updaters.push(next), updaters.len() as int + 1);
            &&& forall|k: int| 0 <= k < stages.len() ==> (#[trigger] stages[k]) is Refresh || stages[k] is Prune
            &&& next is Refresh || next is Prune ==> more == stages.push(next)
            &&& !(next is Refresh || next is Prune) ==> more == stages
        }),
        modifiers_of(Seq::empty(), 0).len() == 0,
{
    lemma_modifiers_same(updaters, updaters.push(next), updaters.len() as int);
    lemma_modifiers_are(updaters, updaters.len() as int);
}

proof fn lemma_modifiers_same(a: Seq<TreeUpdaterName>, b: Seq<TreeUpdaterName>, n: int)
    requires
        forall|i: int| 0 <= i < n ==> a[i] == b[i],
    ensures
        modifiers_of(a, n) == modifiers_of(b, n),
    decreases n,
{
    if n > 0 {
        lemma_modifiers_same(a, b, n - 1);
    }
}

proof fn lemma_modifiers_are(updaters: Seq<TreeUpdaterName>, n: int)
    ensures
        forall|k: int|
            0 <= k < modifiers_of(updaters, n).len() ==> (#[trigger] modifiers_of(updaters, n)[k]) is Refresh
                || modifiers_of(updaters, n)[k] is Prune,
    decreases n,
{
    if n > 0 {
        lemma_modifiers_are(updaters, n - 1);
    }
}

/// Without dropout, before the first tree and in a skipped round nothing is left out. In any other
/// round a tree whose draw stands below its threshold is left out, and no other, unless there is no
/// such tree and one has to be dropped.
pub proof fn lemma_dropped_by_draw(dart: Option<DartConfig>, n: int, draws: DropDraws, t: usize)
    requires
        0 <= n <= usize::MAX,
    ensures
        ({
            let dropped = dropped_of(dart, n, draws);
            let skipped = dart matches Some(d) && rank(d.skip_drop) > 0 && lt_spec(draws.skip, d.skip_drop);
            &&& dart is None || n == 0 || skipped ==> dropped.len() == 0
            &&& dart is Some && !skipped && t < n && lt_spec(draws.each[t as int], draws.thresholds[t as int])
                ==> dropped.contains(t)
            &&& dropped.contains(t) && !lt_spec(draws.each[t as int], draws.thresholds[t as int]) ==> {
                &&& dropped == seq![t]
                &&& dart matches Some(d) && d.one_drop
                &&& t == draws.pick || (draws.pick >= n && t == n - 1)
                &&& forall|i: int| 0 <= i < n ==> !lt_spec(#[trigger] draws.each[i], draws.thresholds[i])
            }
            &&& n > 0 && !skipped && (dart matches Some(d) && d.one_drop && (d.sample_type
                == DartSampleType::Uniform || draws.alive)) ==> dropped.len() > 0
        }),
{
    let each = draws.each@;
    let limits = draws.thresholds@;
    lemma_below_contains(each, limits, n);
    let dropped = dropped_of(dart, n, draws);
    let below = below_threshold(each, limits, n);
    if dropped.contains(t) && !lt_spec(each[t as int], limits[t as int]) {
        assert(!below.contains(t));
        assert(below.len() == 0);
        assert(dropped.len() == 1);
        assert(dropped[0] == t);
        assert forall|i: int| 0 <= i < n implies !lt_spec(#[trigger] draws.each[i], draws.thresholds[i]) by {
            assert(!below.contains(i as usize));
        }
        assert(dropped =~= seq![t]);
    }
    if t < n && lt_spec(each[t as int], limits[t as int]) {
        assert(below.contains(t));
        assert(below.len() > 0);
    }
}

proof fn lemma_below_contains(draws: Seq<u32>, limits: Seq<u32>, n: int)
    requires
        0 <= n <= usize::MAX,
    ensures
        forall|t: usize|
            #[trigger] below_threshold(draws, limits, n).contains(t) <==> t < n && lt_spec(
                draws[t as int],
                limits[t as int],
            ),
    decreases n,
{
    if n > 0 {
        lemma_below_contains(draws, limits, n - 1);
        let rest = below_threshold(draws, limits, n - 1);
        let all = below_threshold(draws, limits, n);
        assert forall|t: usize| #[trigger] all.contains(t) <==> t < n && lt_spec(
            draws[t as int],
            limits[t as int],
        ) by {
            if all.contains(t) {
                let k = choose|k: int| 0 <= k < all.len() && all[k] == t;
                if k < rest.len() {
                    assert(rest[k] == t);
                    assert(rest.contains(t));
                }
            }
            if rest.contains(t) {
                let k = choose|k: int| 0 <= k < rest.len() && rest[k] == t;
                assert(all[k] == t);
            }
            if t == n - 1 && lt_spec(draws[n - 1], limits[n - 1]) {
                assert(all[rest.len() as int] == t);
            }
        }
    }
}

} // verus!
