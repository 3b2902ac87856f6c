//! The parameter sweep: which settings it compares, on which data, under which labels.
//!
//! Not every parameter costs anything, so the sweep covers the ones that change the work: the
//! histogram size, the tree size, how many trees there are, how many rows and columns each
//! split considers, and how many threads do it.

use super::args::SweepArgs;
use super::{shifted, starred, Rng, MISSING_BITS};
use crate::float_bits::{lt_spec, wide_lt_spec};
use crate::parameters::{
    BoosterParameters, BoosterType, DartNormalizeType, DartParameters, DartSampleType, FeatureSelector,
    GeneralParameters, LearningTaskParameters, LinearBoosterParameters, LinearUpdater, MonotoneConstraint,
    MultiStrategy, Objective, SamplingMethod, TrainingParameters, TreeBoosterParameters, TreeMethod, VerboseEval,
    Verbosity,
};
use crate::text::{chars_of, decimal, decimal_text, same_chars, slice_of};
use crate::tree::param::GrowPolicy;
use vstd::prelude::*;
use vstd::string::*;

verus! {

/// A ratio that the sweep tries.
#[derive(Clone, Copy, Debug, PartialEq, Eq, Structural)]
pub enum Ratio {
    Zero,
    Tenth,
    Fifth,
    Quarter,
    Half,
    One,
}

impl Ratio {
    /// The single-precision number.
    pub open spec fn bits_spec(self) -> u32 {
        match self {
            Ratio::Zero => 0,
            Ratio::Tenth => 0x3DCC_CCCD,
            Ratio::Fifth => 0x3E4C_CCCD,
            Ratio::Quarter => 0x3E80_0000,
            Ratio::Half => 0x3F00_0000,
            Ratio::One => 0x3F80_0000,
        }
    }

    pub fn bits(self) -> (bits: u32)
        ensures
            bits == self.bits_spec(),
    {
        match self {
            Ratio::Zero => 0,
            Ratio::Tenth => 0x3DCC_CCCD,
            Ratio::Fifth => 0x3E4C_CCCD,
            Ratio::Quarter => 0x3E80_0000,
            Ratio::Half => 0x3F00_0000,
            Ratio::One => 0x3F80_0000,
        }
    }

    /// The double-precision number.
    pub open spec fn wide_bits_spec(self) -> u64 {
        match self {
            Ratio::Zero => 0,
            Ratio::Tenth => 0x3FB9_9999_9999_999A,
            Ratio::Fifth => 0x3FC9_9999_9999_999A,
            Ratio::Quarter => 0x3FD0_0000_0000_0000,
            Ratio::Half => 0x3FE0_0000_0000_0000,
            Ratio::One => 0x3FF0_0000_0000_0000,
        }
    }

    pub fn wide_bits(self) -> (bits: u64)
        ensures
            bits == self.wide_bits_spec(),
    {
        match self {
            Ratio::Zero => 0,
            Ratio::Tenth => 0x3FB9_9999_9999_999A,
            Ratio::Fifth => 0x3FC9_9999_9999_999A,
            Ratio::Quarter => 0x3FD0_0000_0000_0000,
            Ratio::Half => 0x3FE0_0000_0000_0000,
            Ratio::One => 0x3FF0_0000_0000_0000,
        }
    }

    pub open spec fn label(self) -> Seq<char> {
        match self {
            Ratio::Zero => "0"@,
            Ratio::Tenth => "0.1"@,
            Ratio::Fifth => "0.2"@,
            Ratio::Quarter => "0.25"@,
            Ratio::Half => "0.5"@,
            Ratio::One => "1"@,
        }
    }

    pub fn as_str(self) -> (text: &'static str)
        ensures
            text@ == self.label(),
    {
        match self {
            Ratio::Zero => "0",
            Ratio::Tenth => "0.1",
            Ratio::Fifth => "0.2",
            Ratio::Quarter => "0.25",
            Ratio::Half => "0.5",
            Ratio::One => "1",
        }
    }
}

/// The objectives that the sweep compares.
#[derive(Clone, Copy, Debug, PartialEq, Eq, Structural)]
pub enum SweptObjective {
    SquaredError,
    AbsoluteError,
    PseudoHuberError,
    Logistic,
    Poisson,
    Tweedie,
    QuantileError,
    Cox,
}

/// The metrics that the sweep compares.
#[derive(Clone, Copy, Debug, PartialEq, Eq, Structural)]
pub enum SweptMetric {
    Rmse,
    Mae,
    Logloss,
    Auc,
    Aucpr,
    Ndcg,
}

/// What one row of the sweep changes of the default settings.
#[derive(Clone, Copy, Debug, PartialEq, Eq, Structural)]
pub enum Change {
    MaxBin(u32),
    MaxDepth(u32),
    /// At most so many leaves, grown in this order, at any depth.
    Leaves(GrowPolicy, u32),
    NoSampling,
    Subsample(SamplingMethod, Ratio),
    NoColumnSampling,
    ByTree(Ratio),
    ByLevel(Ratio),
    ByNode(Ratio),
    /// So many trees a round, each of half the rows.
    Forest(u32),
    Unconstrained,
    /// Every feature is held to an increasing effect.
    Monotone,
    /// Even features interact with even ones only, odd with odd.
    Interaction,
    /// So many histograms kept, under a deep and wide tree.
    CachedNodes(u64),
    Objective(SweptObjective),
    Classes(u32),
    Metric(SweptMetric),
    NoDropout,
    DropRate(Ratio),
    Method(TreeMethod),
    /// The method under an objective whose hessian varies.
    VaryingHessian(TreeMethod),
    DenseColumn(Ratio),
    TreeReference,
    Linear(LinearUpdater, FeatureSelector),
    /// So many category codes read as ordered numbers.
    Ordered(u32),
    /// So many categories, parted in two.
    Partition(u32),
    /// So many categories, one against the rest.
    OneHot(u32),
    /// So many categories, and the most that a split may name.
    CatThreshold(u32, u32),
    /// How sparse a column is stored as one, and what that comes to: columns stored sparse,
    /// and bytes.
    SparseThreshold(Ratio, usize, usize),
    /// So many targets.
    Strategy(MultiStrategy, u32),
    Threads(u32),
}

/// The matrix that a row of the sweep is fitted on.
#[derive(Clone, Copy, Debug, PartialEq, Eq, Structural)]
pub enum Dataset {
    Shared,
    /// Labels of zero and one.
    UnitLabels,
    /// Labels that are class numbers, so many of them.
    ClassLabels(u32),
    /// A quarter of the values missing.
    Sparse,
    /// Two columns of so many categories.
    Categorical(u32),
    /// The same values, read as numbers.
    CategoricalAsNumbers(u32),
    /// Columns from almost empty to full.
    Graded,
    /// So many targets.
    Targets(u32),
}

/// One group of rows, all compared against its first.
#[derive(Clone, Debug)]
pub struct Group {
    pub name: &'static str,
    pub cases: Vec<Change>,
}

/// The groups, each with its name. `layouts` holds the columns stored sparse and the bytes
/// of the index at each threshold tried.
pub open spec fn plan(layouts: Seq<(usize, usize)>) -> Seq<(Seq<char>, Seq<Change>)> {
    seq![
        ("max_bin"@, seq![Change::MaxBin(16), Change::MaxBin(64), Change::MaxBin(256), Change::MaxBin(512)]),
        ("max_depth"@, seq![Change::MaxDepth(4), Change::MaxDepth(6), Change::MaxDepth(8), Change::MaxDepth(10)]),
        (
            "grow_policy"@,
            seq![
                Change::Leaves(GrowPolicy::DepthWise, 16),
                Change::Leaves(GrowPolicy::DepthWise, 64),
                Change::Leaves(GrowPolicy::LossGuide, 16),
                Change::Leaves(GrowPolicy::LossGuide, 64),
            ],
        ),
        (
            "subsample"@,
            seq![
                Change::NoSampling,
                Change::Subsample(SamplingMethod::Uniform, Ratio::Half),
                Change::Subsample(SamplingMethod::Uniform, Ratio::Tenth),
                Change::Subsample(SamplingMethod::GradientBased, Ratio::Half),
                Change::Subsample(SamplingMethod::GradientBased, Ratio::Tenth),
            ],
        ),
        (
            "colsample"@,
            seq![
                Change::NoColumnSampling,
                Change::ByTree(Ratio::Half),
                Change::ByLevel(Ratio::Half),
                Change::ByNode(Ratio::Half),
                Change::ByTree(Ratio::Quarter),
                Change::ByLevel(Ratio::Quarter),
                Change::ByNode(Ratio::Quarter),
            ],
        ),
        ("num_parallel_tree"@, seq![Change::Forest(1), Change::Forest(2), Change::Forest(4)]),
        ("constraints"@, seq![Change::Unconstrained, Change::Monotone, Change::Interaction]),
        (
            "max_cached_hist_node"@,
            seq![Change::CachedNodes(65536), Change::CachedNodes(64), Change::CachedNodes(8), Change::CachedNodes(1)],
        ),
        (
            "objective"@,
            seq![
                Change::Objective(SweptObjective::SquaredError),
                Change::Objective(SweptObjective::AbsoluteError),
                Change::Objective(SweptObjective::PseudoHuberError),
                Change::Objective(SweptObjective::Logistic),
                Change::Objective(SweptObjective::Poisson),
                Change::Objective(SweptObjective::Tweedie),
                Change::Objective(SweptObjective::QuantileError),
                Change::Objective(SweptObjective::Cox),
            ],
        ),
        ("num_class"@, seq![Change::Classes(2), Change::Classes(4), Change::Classes(8)]),
        (
            "eval_metric"@,
            seq![
                Change::Metric(SweptMetric::Rmse),
                Change::Metric(SweptMetric::Mae),
                Change::Metric(SweptMetric::Logloss),
                Change::Metric(SweptMetric::Auc),
                Change::Metric(SweptMetric::Aucpr),
                Change::Metric(SweptMetric::Ndcg),
            ],
        ),
        ("dart"@, seq![Change::NoDropout, Change::DropRate(Ratio::Tenth), Change::DropRate(Ratio::Half)]),
        (
            "tree_method"@,
            seq![
                Change::Method(TreeMethod::Hist),
                Change::Method(TreeMethod::Approx),
                Change::Method(TreeMethod::Exact),
                Change::VaryingHessian(TreeMethod::Hist),
                Change::VaryingHessian(TreeMethod::Approx),
            ],
        ),
        (
            "opt_dense_col"@,
            seq![Change::DenseColumn(Ratio::One), Change::DenseColumn(Ratio::Half), Change::DenseColumn(Ratio::Zero)],
        ),
        (
            "gblinear"@,
            seq![
                Change::TreeReference,
                Change::Linear(LinearUpdater::Shotgun, FeatureSelector::Cyclic),
                Change::Linear(LinearUpdater::Shotgun, FeatureSelector::Shuffle),
                Change::Linear(LinearUpdater::CoordDescent, FeatureSelector::Cyclic),
                Change::Linear(LinearUpdater::CoordDescent, FeatureSelector::Random),
                Change::Linear(LinearUpdater::CoordDescent, FeatureSelector::Thrifty),
                Change::Linear(LinearUpdater::CoordDescent, FeatureSelector::Greedy),
            ],
        ),
        ("categorical"@, categorical_rows(8)),
        ("categorical"@, categorical_rows(64)),
        (
            "sparse_threshold"@,
            seq![
                Change::SparseThreshold(Ratio::Zero, layouts[0].0, layouts[0].1),
                Change::SparseThreshold(Ratio::Fifth, layouts[1].0, layouts[1].1),
                Change::SparseThreshold(Ratio::Half, layouts[2].0, layouts[2].1),
                Change::SparseThreshold(Ratio::One, layouts[3].0, layouts[3].1),
            ],
        ),
        ("multi_strategy"@, strategy_rows(2)),
        ("multi_strategy"@, strategy_rows(4)),
        ("nthread"@, seq![Change::Threads(1), Change::Threads(2), Change::Threads(4), Change::Threads(8)]),
    ]
}

/// The rows of a group on `n` categories.
pub open spec fn categorical_rows(n: u32) -> Seq<Change> {
    seq![
        Change::Ordered(n),
        Change::Partition(n),
        Change::OneHot(n),
        Change::CatThreshold(n, 4),
        Change::CatThreshold(n, 64),
    ]
}

/// The rows of a group on `n` targets.
pub open spec fn strategy_rows(n: u32) -> Seq<Change> {
    seq![Change::Strategy(MultiStrategy::OneOutputPerTree, n), Change::Strategy(MultiStrategy::MultiOutputTree, n)]
}

/// The group holds these rows under this name.
pub open spec fn is_group(group: Group, planned: (Seq<char>, Seq<Change>)) -> bool {
    group.name@ == planned.0 && group.cases@ == planned.1
}

/// Add a group.
fn put(groups: &mut Vec<Group>, name: &'static str, cases: Vec<Change>)
    ensures
        final(groups)@ == old(groups)@.push(Group { name, cases }),
{
    groups.push(Group { name, cases });
}

/// The groups on the shape of the trees, added to an empty list.
fn put_tree_groups(groups: &mut Vec<Group>, Ghost(planned): Ghost<Seq<(Seq<char>, Seq<Change>)>>)
    requires
        old(groups).len() == 0,
        exists|layouts: Seq<(usize, usize)>| planned == plan(layouts),
    ensures
        final(groups).len() == 8,
        forall|i: int| 0 <= i < 8 ==> is_group(#[trigger] final(groups)[i], planned[i]),
{
    put(
        groups,
        "max_bin",
        vec![Change::MaxBin(16), Change::MaxBin(64), Change::MaxBin(256), Change::MaxBin(512)],
    );
    assert(groups[0].cases@ =~= planned[0].1);
    put(
        groups,
        "max_depth",
        vec![Change::MaxDepth(4), Change::MaxDepth(6), Change::MaxDepth(8), Change::MaxDepth(10)],
    );
    assert(groups[1].cases@ =~= planned[1].1);
    put(
        groups,
        "grow_policy",
        vec![
            Change::Leaves(GrowPolicy::DepthWise, 16),
            Change::Leaves(GrowPolicy::DepthWise, 64),
            Change::Leaves(GrowPolicy::LossGuide, 16),
            Change::Leaves(GrowPolicy::LossGuide, 64),
        ],
    );
    assert(groups[2].cases@ =~= planned[2].1);
    put(
        groups,
        "subsample",
        vec![
            Change::NoSampling,
            Change::Subsample(SamplingMethod::Uniform, Ratio::Half),
            Change::Subsample(SamplingMethod::Uniform, Ratio::Tenth),
            Change::Subsample(SamplingMethod::GradientBased, Ratio::Half),
            Change::Subsample(SamplingMethod::GradientBased, Ratio::Tenth),
        ],
    );
    assert(groups[3].cases@ =~= planned[3].1);
    put(
        groups,
        "colsample",
        vec![
            Change::NoColumnSampling,
            Change::ByTree(Ratio::Half),
            Change::ByLevel(Ratio::Half),
            Change::ByNode(Ratio::Half),
            Change::ByTree(Ratio::Quarter),
            Change::ByLevel(Ratio::Quarter),
            Change::ByNode(Ratio::Quarter),
        ],
    );
    assert(groups[4].cases@ =~= planned[4].1);
    put(groups, "num_parallel_tree", vec![Change::Forest(1), Change::Forest(2), Change::Forest(4)]);
    assert(groups[5].cases@ =~= planned[5].1);
    put(groups, "constraints", vec![Change::Unconstrained, Change::Monotone, Change::Interaction]);
    assert(groups[6].cases@ =~= planned[6].1);
    put(
        groups,
        "max_cached_hist_node",
        vec![Change::CachedNodes(65536), Change::CachedNodes(64), Change::CachedNodes(8), Change::CachedNodes(1)],
    );
    assert(groups[7].cases@ =~= planned[7].1);
}

/// The groups on the objective, the metric and the method, added after the first eight.
fn put_model_groups(groups: &mut Vec<Group>, Ghost(planned): Ghost<Seq<(Seq<char>, Seq<Change>)>>)
    requires
        old(groups).len() == 8,
        exists|layouts: Seq<(usize, usize)>| planned == plan(layouts),
    ensures
        final(groups).len() == 15,
        forall|i: int| 0 <= i < 8 ==> final(groups)[i] == #[trigger] old(groups)[i],
        forall|i: int| 8 <= i < 15 ==> is_group(#[trigger] final(groups)[i], planned[i]),
{
    put(
        groups,
        "objective",
        vec![
            Change::Objective(SweptObjective::SquaredError),
            Change::Objective(SweptObjective::AbsoluteError),
            Change::Objective(SweptObjective::PseudoHuberError),
            Change::Objective(SweptObjective::Logistic),
            Change::Objective(SweptObjective::Poisson),
            Change::Objective(SweptObjective::Tweedie),
            Change::Objective(SweptObjective::QuantileError),
            Change::Objective(SweptObjective::Cox),
        ],
    );
    assert(groups[8].cases@ =~= planned[8].1);
    put(groups, "num_class", vec![Change::Classes(2), Change::Classes(4), Change::Classes(8)]);
    assert(groups[9].cases@ =~= planned[9].1);
    put(
        groups,
        "eval_metric",
        vec![
            Change::Metric(SweptMetric::Rmse),
            Change::Metric(SweptMetric::Mae),
            Change::Metric(SweptMetric::Logloss),
            Change::Metric(SweptMetric::Auc),
            Change::Metric(SweptMetric::Aucpr),
            Change::Metric(SweptMetric::Ndcg),
        ],
    );
    assert(groups[10].cases@ =~= planned[10].1);
    put(groups, "dart", vec![Change::NoDropout, Change::DropRate(Ratio::Tenth), Change::DropRate(Ratio::Half)]);
    assert(groups[11].cases@ =~= planned[11].1);
    put(
        groups,
        "tree_method",
        vec![
            Change::Method(TreeMethod::Hist),
            Change::Method(TreeMethod::Approx),
            Change::Method(TreeMethod::Exact),
            Change::VaryingHessian(TreeMethod::Hist),
            Change::VaryingHessian(TreeMethod::Approx),
        ],
    );
    assert(groups[12].cases@ =~= planned[12].1);
    put(
        groups,
        "opt_dense_col",
        vec![Change::DenseColumn(Ratio::One), Change::DenseColumn(Ratio::Half), Change::DenseColumn(Ratio::Zero)],
    );
    assert(groups[13].cases@ =~= planned[13].1);
    put(
        groups,
        "gblinear",
        vec![
            Change::TreeReference,
            Change::Linear(LinearUpdater::Shotgun, FeatureSelector::Cyclic),
            Change::Linear(LinearUpdater::Shotgun, FeatureSelector::Shuffle),
            Change::Linear(LinearUpdater::CoordDescent, FeatureSelector::Cyclic),
            Change::Linear(LinearUpdater::CoordDescent, FeatureSelector::Random),
            Change::Linear(LinearUpdater::CoordDescent, FeatureSelector::Thrifty),
            Change::Linear(LinearUpdater::CoordDescent, FeatureSelector::Greedy),
        ],
    );
    assert(groups[14].cases@ =~= planned[14].1);
}

fn categorical_group(n: u32) -> (cases: Vec<Change>)
    ensures
        cases@ == categorical_rows(n),
{
    let cases: Vec<Change> = vec![
        Change::Ordered(n),
        Change::Partition(n),
        Change::OneHot(n),
        Change::CatThreshold(n, 4),
        Change::CatThreshold(n, 64),
    ];
    assert(cases@ =~= categorical_rows(n));
    cases
}

fn strategy_group(n: u32) -> (cases: Vec<Change>)
    ensures
        cases@ == strategy_rows(n),
{
    let cases: Vec<Change> = vec![
        Change::Strategy(MultiStrategy::OneOutputPerTree, n),
        Change::Strategy(MultiStrategy::MultiOutputTree, n),
    ];
    assert(cases@ =~= strategy_rows(n));
    cases
}

/// The groups of the sweep, in the order they run. Thread scaling comes last: it is the one
/// group that goes by its own thread count.
///
/// `layouts` holds the columns stored sparse and the bytes of the index at the thresholds
/// 0, 0.2, 0.5 and 1.
pub fn groups(layouts: &[(usize, usize)]) -> (groups: Vec<Group>)
    requires
        layouts.len() == 4,
    ensures
        groups.len() == plan(layouts@).len(),
        forall|i: int| 0 <= i < groups.len() ==> is_group(#[trigger] groups[i], plan(layouts@)[i]),
{
    let ghost planned = plan(layouts@);
    let mut groups: Vec<Group> = Vec::new();
    put_tree_groups(&mut groups, Ghost(planned));
    let ghost first = groups@;
    put_model_groups(&mut groups, Ghost(planned));
    assert forall|i: int| 0 <= i < 15 implies is_group(#[trigger] groups[i], planned[i]) by {
        if i < 8 {
            assert(groups[i] == first[i]);
        }
    }
    put(&mut groups, "categorical", categorical_group(8));
    put(&mut groups, "categorical", categorical_group(64));
    put(
        &mut groups,
        "sparse_threshold",
        vec![
            Change::SparseThreshold(Ratio::Zero, layouts[0].0, layouts[0].1),
            Change::SparseThreshold(Ratio::Fifth, layouts[1].0, layouts[1].1),
            Change::SparseThreshold(Ratio::Half, layouts[2].0, layouts[2].1),
            Change::SparseThreshold(Ratio::One, layouts[3].0, layouts[3].1),
        ],
    );
    assert(groups[17].cases@ =~= planned[17].1);
    put(&mut groups, "multi_strategy", strategy_group(2));
    put(&mut groups, "multi_strategy", strategy_group(4));
    put(
        &mut groups,
        "nthread",
        vec![Change::Threads(1), Change::Threads(2), Change::Threads(4), Change::Threads(8)],
    );
    assert(groups[20].cases@ =~= planned[20].1);
    groups
}

/// Every group has a first row, which the others are compared against, and another one.
pub proof fn lemma_groups_compare(layouts: Seq<(usize, usize)>, i: int)
    requires
        0 <= i < plan(layouts).len(),
    ensures
        plan(layouts)[i].1.len() >= 2,
{
}

/// The name of an order of growth.
pub open spec fn policy_name_spec(v: GrowPolicy) -> Seq<char> {
    match v {
        GrowPolicy::DepthWise => "depthwise"@,
        GrowPolicy::LossGuide => "lossguide"@,
    }
}

/// The name of an order of growth.
pub fn policy_name(v: GrowPolicy) -> (name: &'static str)
    ensures
        name@ == policy_name_spec(v),
        v is DepthWise ==> name@ == "depthwise"@,
        v is LossGuide ==> name@ == "lossguide"@,
{
    match v {
        GrowPolicy::DepthWise => "depthwise",
        GrowPolicy::LossGuide => "lossguide",
    }
}

/// The name of a way to draw rows.
pub open spec fn sampling_name_spec(v: SamplingMethod) -> Seq<char> {
    match v {
        SamplingMethod::Uniform => "uniform"@,
        SamplingMethod::GradientBased => "gradient_based"@,
    }
}

/// The name of a way to draw rows.
pub fn sampling_name(v: SamplingMethod) -> (name: &'static str)
    ensures
        name@ == sampling_name_spec(v),
        v is Uniform ==> name@ == "uniform"@,
        v is GradientBased ==> name@ == "gradient_based"@,
{
    match v {
        SamplingMethod::Uniform => "uniform",
        SamplingMethod::GradientBased => "gradient_based",
    }
}

/// The name of a tree method.
pub open spec fn method_name_spec(v: TreeMethod) -> Seq<char> {
    match v {
        TreeMethod::Auto => "auto"@,
        TreeMethod::Hist => "hist"@,
        TreeMethod::Approx => "approx"@,
        TreeMethod::Exact => "exact"@,
    }
}

/// The name of a tree method.
pub fn method_name(v: TreeMethod) -> (name: &'static str)
    ensures
        name@ == method_name_spec(v),
        v is Auto ==> name@ == "auto"@,
        v is Hist ==> name@ == "hist"@,
        v is Approx ==> name@ == "approx"@,
        v is Exact ==> name@ == "exact"@,
{
    match v {
        TreeMethod::Auto => "auto",
        TreeMethod::Hist => "hist",
        TreeMethod::Approx => "approx",
        TreeMethod::Exact => "exact",
    }
}

/// The name of a linear updater.
pub open spec fn updater_name_spec(v: LinearUpdater) -> Seq<char> {
    match v {
        LinearUpdater::Shotgun => "shotgun"@,
        LinearUpdater::CoordDescent => "coord_descent"@,
    }
}

/// The name of a linear updater.
pub fn updater_name(v: LinearUpdater) -> (name: &'static str)
    ensures
        name@ == updater_name_spec(v),
        v is Shotgun ==> name@ == "shotgun"@,
        v is CoordDescent ==> name@ == "coord_descent"@,
{
    match v {
        LinearUpdater::Shotgun => "shotgun",
        LinearUpdater::CoordDescent => "coord_descent",
    }
}

/// The name of a feature selector.
pub open spec fn selector_name_spec(v: FeatureSelector) -> Seq<char> {
    match v {
        FeatureSelector::Cyclic => "cyclic"@,
        FeatureSelector::Shuffle => "shuffle"@,
        FeatureSelector::Random => "random"@,
        FeatureSelector::Greedy => "greedy"@,
        FeatureSelector::Thrifty => "thrifty"@,
    }
}

/// The name of a feature selector.
pub fn selector_name(v: FeatureSelector) -> (name: &'static str)
    ensures
        name@ == selector_name_spec(v),
        v is Cyclic ==> name@ == "cyclic"@,
        v is Shuffle ==> name@ == "shuffle"@,
        v is Random ==> name@ == "random"@,
        v is Greedy ==> name@ == "greedy"@,
        v is Thrifty ==> name@ == "thrifty"@,
{
    match v {
        FeatureSelector::Cyclic => "cyclic",
        FeatureSelector::Shuffle => "shuffle",
        FeatureSelector::Random => "random",
        FeatureSelector::Greedy => "greedy",
        FeatureSelector::Thrifty => "thrifty",
    }
}

/// The name of a strategy for several outputs.
pub open spec fn strategy_name_spec(v: MultiStrategy) -> Seq<char> {
    match v {
        MultiStrategy::OneOutputPerTree => "one_output_per_tree"@,
        MultiStrategy::MultiOutputTree => "multi_output_tree"@,
    }
}

/// The name of a strategy for several outputs.
pub fn strategy_name(v: MultiStrategy) -> (name: &'static str)
    ensures
        name@ == strategy_name_spec(v),
        v is OneOutputPerTree ==> name@ == "one_output_per_tree"@,
        v is MultiOutputTree ==> name@ == "multi_output_tree"@,
{
    match v {
        MultiStrategy::OneOutputPerTree => "one_output_per_tree",
        MultiStrategy::MultiOutputTree => "multi_output_tree",
    }
}

/// The name of an objective.
pub open spec fn objective_name_spec(v: SweptObjective) -> Seq<char> {
    match v {
        SweptObjective::SquaredError => "reg:squarederror"@,
        SweptObjective::AbsoluteError => "reg:absoluteerror"@,
        SweptObjective::PseudoHuberError => "reg:pseudohubererror"@,
        SweptObjective::Logistic => "reg:logistic"@,
        SweptObjective::Poisson => "count:poisson"@,
        SweptObjective::Tweedie => "reg:tweedie"@,
        SweptObjective::QuantileError => "reg:quantileerror"@,
        SweptObjective::Cox => "survival:cox"@,
    }
}

/// The name of an objective.
pub fn objective_name(v: SweptObjective) -> (name: &'static str)
    ensures
        name@ == objective_name_spec(v),
        v is SquaredError ==> name@ == "reg:squarederror"@,
        v is AbsoluteError ==> name@ == "reg:absoluteerror"@,
        v is PseudoHuberError ==> name@ == "reg:pseudohubererror"@,
        v is Logistic ==> name@ == "reg:logistic"@,
        v is Poisson ==> name@ == "count:poisson"@,
        v is Tweedie ==> name@ == "reg:tweedie"@,
        v is QuantileError ==> name@ == "reg:quantileerror"@,
        v is Cox ==> name@ == "survival:cox"@,
{
    match v {
        SweptObjective::SquaredError => "reg:squarederror",
        SweptObjective::AbsoluteError => "reg:absoluteerror",
        SweptObjective::PseudoHuberError => "reg:pseudohubererror",
        SweptObjective::Logistic => "reg:logistic",
        SweptObjective::Poisson => "count:poisson",
        SweptObjective::Tweedie => "reg:tweedie",
        SweptObjective::QuantileError => "reg:quantileerror",
        SweptObjective::Cox => "survival:cox",
    }
}

/// The name of a metric.
pub open spec fn metric_name_spec(v: SweptMetric) -> Seq<char> {
    match v {
        SweptMetric::Rmse => "rmse"@,
        SweptMetric::Mae => "mae"@,
        SweptMetric::Logloss => "logloss"@,
        SweptMetric::Auc => "auc"@,
        SweptMetric::Aucpr => "aucpr"@,
        SweptMetric::Ndcg => "ndcg"@,
    }
}

/// The name of a metric.
pub fn metric_name(v: SweptMetric) -> (name: &'static str)
    ensures
        name@ == metric_name_spec(v),
        v is Rmse ==> name@ == "rmse"@,
        v is Mae ==> name@ == "mae"@,
        v is Logloss ==> name@ == "logloss"@,
        v is Auc ==> name@ == "auc"@,
        v is Aucpr ==> name@ == "aucpr"@,
        v is Ndcg ==> name@ == "ndcg"@,
{
    match v {
        SweptMetric::Rmse => "rmse",
        SweptMetric::Mae => "mae",
        SweptMetric::Logloss => "logloss",
        SweptMetric::Auc => "auc",
        SweptMetric::Aucpr => "aucpr",
        SweptMetric::Ndcg => "ndcg",
    }
}

/// Tenths of a mebibyte, the nearest to so many bytes; the even one where two are as near.
pub open spec fn mebibyte_tenths(bytes: int) -> int {
    let whole = bytes * 10 / 0x10_0000;
    let rest = bytes * 10 % 0x10_0000;
    if rest > 0x8_0000 || (rest == 0x8_0000 && whole % 2 == 1) {
        whole + 1
    } else {
        whole
    }
}

/// The largest number of bytes that double precision counts one by one.
pub const EXACT_BYTES: u64 = 0x20_0000_0000_0000;

/// The label that a row has in a sweep over so many features.
pub open spec fn label_spec(change: Change, features: usize) -> Seq<char> {
    match change {
        Change::MaxBin(n) => "max_bin="@ + decimal(n as nat),
        Change::MaxDepth(n) => "max_depth="@ + decimal(n as nat),
        Change::Leaves(policy, n) => policy_name_spec(policy) + "/max_leaves="@ + decimal(n as nat),
        Change::NoSampling => "subsample=1.0 (none)"@,
        Change::Subsample(method, ratio) => sampling_name_spec(method) + "/subsample="@ + ratio.label(),
        Change::NoColumnSampling => "no column sampling"@,
        Change::ByTree(ratio) => "colsample_bytree="@ + ratio.label(),
        Change::ByLevel(ratio) => "colsample_bylevel="@ + ratio.label(),
        Change::ByNode(ratio) => "colsample_bynode="@ + ratio.label(),
        Change::Forest(n) => "num_parallel_tree="@ + decimal(n as nat),
        Change::Unconstrained => "unconstrained"@,
        Change::Monotone => "monotone (all features)"@,
        Change::Interaction => "interaction (2 groups)"@,
        Change::CachedNodes(n) => "max_cached_hist_node="@ + decimal(n as nat),
        Change::Objective(objective) => objective_name_spec(objective),
        Change::Classes(n) => "num_class="@ + decimal(n as nat),
        Change::Metric(metric) => metric_name_spec(metric),
        Change::NoDropout => "gbtree (no dropout)"@,
        Change::DropRate(ratio) => "dart/rate_drop="@ + ratio.label(),
        Change::Method(method) => method_name_spec(method),
        Change::VaryingHessian(method) => method_name_spec(method) + " (varying hessian)"@,
        Change::DenseColumn(ratio) => "exact/opt_dense_col="@ + ratio.label(),
        Change::TreeReference => "gbtree (reference)"@,
        Change::Linear(updater, selector) => "gblinear/"@ + updater_name_spec(updater) + "/"@ + selector_name_spec(
            selector,
        ),
        Change::Ordered(n) => "numeric baseline/"@ + decimal(n as nat) + " values"@,
        Change::Partition(n) => "partition/"@ + decimal(n as nat) + " cats"@,
        Change::OneHot(n) => "one-hot/"@ + decimal(n as nat) + " cats"@,
        Change::CatThreshold(_, most) => "partition/max_cat_threshold="@ + decimal(most as nat),
        Change::SparseThreshold(ratio, columns, bytes) => "="@ + ratio.label() + " "@ + decimal(columns as nat) + "/"@
            + decimal(features as nat) + " sparse "@ + decimal((mebibyte_tenths(bytes as int) / 10) as nat) + "."@
            + decimal((mebibyte_tenths(bytes as int) % 10) as nat) + "MiB"@,
        Change::Strategy(strategy, n) => strategy_name_spec(strategy) + "/"@ + decimal(n as nat) + " targets"@,
        Change::Threads(n) => "nthread="@ + decimal(n as nat),
    }
}

/// A text and a number after it.
fn numbered(before: &str, n: u64) -> (s: String)
    ensures
        s@ == before@ + decimal(n as nat),
{
    let mut s: String = before.to_owned();
    s.append(decimal_text(n).as_str());
    s
}

/// Two texts.
fn glued(a: &str, b: &str) -> (s: String)
    ensures
        s@ == a@ + b@,
{
    let mut s: String = a.to_owned();
    s.append(b);
    s
}

/// The label that a row has in a sweep over so many features.
pub fn label(change: Change, features: usize) -> (text: String)
    requires
        match change {
            Change::SparseThreshold(_, _, bytes) => bytes <= EXACT_BYTES,
            _ => true,
        },
    ensures
        text@ == label_spec(change, features),
{
    match change {
        Change::MaxBin(n) => numbered("max_bin=", n as u64),
        Change::MaxDepth(n) => numbered("max_depth=", n as u64),
        Change::Leaves(policy, n) => numbered(glued(policy_name(policy), "/max_leaves=").as_str(), n as u64),
        Change::NoSampling => "subsample=1.0 (none)".to_owned(),
        Change::Subsample(method, ratio) => glued(
            glued(sampling_name(method), "/subsample=").as_str(),
            ratio.as_str(),
        ),
        Change::NoColumnSampling => "no column sampling".to_owned(),
        Change::ByTree(ratio) => glued("colsample_bytree=", ratio.as_str()),
        Change::ByLevel(ratio) => glued("colsample_bylevel=", ratio.as_str()),
        Change::ByNode(ratio) => glued("colsample_bynode=", ratio.as_str()),
        Change::Forest(n) => numbered("num_parallel_tree=", n as u64),
        Change::Unconstrained => "unconstrained".to_owned(),
        Change::Monotone => "monotone (all features)".to_owned(),
        Change::Interaction => "interaction (2 groups)".to_owned(),
        Change::CachedNodes(n) => numbered("max_cached_hist_node=", n),
        Change::Objective(objective) => objective_name(objective).to_owned(),
        Change::Classes(n) => numbered("num_class=", n as u64),
        Change::Metric(metric) => metric_name(metric).to_owned(),
        Change::NoDropout => "gbtree (no dropout)".to_owned(),
        Change::DropRate(ratio) => glued("dart/rate_drop=", ratio.as_str()),
        Change::Method(method) => method_name(method).to_owned(),
        Change::VaryingHessian(method) => glued(method_name(method), " (varying hessian)"),
        Change::DenseColumn(ratio) => glued("exact/opt_dense_col=", ratio.as_str()),
        Change::TreeReference => "gbtree (reference)".to_owned(),
        Change::Linear(updater, selector) => {
            let mut s: String = glued("gblinear/", updater_name(updater));
            s.append("/");
            s.append(selector_name(selector));
            s
        },
        Change::Ordered(n) => glued(numbered("numeric baseline/", n as u64).as_str(), " values"),
        Change::Partition(n) => glued(numbered("partition/", n as u64).as_str(), " cats"),
        Change::OneHot(n) => glued(numbered("one-hot/", n as u64).as_str(), " cats"),
        Change::CatThreshold(_, most) => numbered("partition/max_cat_threshold=", most as u64),
        Change::SparseThreshold(ratio, columns, bytes) => {
            let scaled: u64 = bytes as u64 * 10;
            let rest: u64 = scaled % 0x10_0000;
            let mut tenths: u64 = scaled / 0x10_0000;
            if rest > 0x8_0000 || (rest == 0x8_0000 && tenths % 2 == 1) {
                tenths += 1;
            }
            let mut s: String = glued("=", ratio.as_str());
            s.append(" ");
            s.append(decimal_text(columns as u64).as_str());
            s.append("/");
            s.append(decimal_text(features as u64).as_str());
            s.append(" sparse ");
            s.append(decimal_text(tenths / 10).as_str());
            s.append(".");
            s.append(decimal_text(tenths % 10).as_str());
            s.append("MiB");
            s
        },
        Change::Strategy(strategy, n) => {
            let mut s: String = glued(strategy_name(strategy), "/");
            s.append(decimal_text(n as u64).as_str());
            s.append(" targets");
            s
        },
        Change::Threads(n) => numbered("nthread=", n as u64),
    }
}

/// The matrix that a row is fitted on. The shared labels are unbounded, so the objectives
/// and metrics that ask for a range bring labels of their own.
pub fn dataset(change: Change) -> (data: Dataset)
    ensures
        data == (match change {
            Change::Objective(_) => Dataset::UnitLabels,
            Change::Metric(_) => Dataset::UnitLabels,
            Change::VaryingHessian(_) => Dataset::UnitLabels,
            Change::Classes(n) => Dataset::ClassLabels(n),
            Change::DenseColumn(_) => Dataset::Sparse,
            Change::Ordered(n) => Dataset::CategoricalAsNumbers(n),
            Change::Partition(n) => Dataset::Categorical(n),
            Change::OneHot(n) => Dataset::Categorical(n),
            Change::CatThreshold(n, _) => Dataset::Categorical(n),
            Change::SparseThreshold(_, _, _) => Dataset::Graded,
            Change::Strategy(_, n) => Dataset::Targets(n),
            _ => Dataset::Shared,
        }),
{
    match change {
        Change::Objective(_) | Change::Metric(_) | Change::VaryingHessian(_) => Dataset::UnitLabels,
        Change::Classes(n) => Dataset::ClassLabels(n),
        Change::DenseColumn(_) => Dataset::Sparse,
        Change::Ordered(n) => Dataset::CategoricalAsNumbers(n),
        Change::Partition(n) | Change::OneHot(n) | Change::CatThreshold(n, _) => Dataset::Categorical(n),
        Change::SparseThreshold(_, _, _) => Dataset::Graded,
        Change::Strategy(_, n) => Dataset::Targets(n),
        _ => Dataset::Shared,
    }
}

/// Which columns of a row's matrix hold categories: the first two, where they are read as such.
pub fn categorical_columns(data: Dataset, features: usize) -> (types: Vec<bool>)
    ensures
        types@ == Seq::new(features as nat, |f: int| f < 2 && data is Categorical),
{
    let categorical: bool = match data {
        Dataset::Categorical(_) => true,
        _ => false,
    };
    let mut types: Vec<bool> = vec![false; features];
    if categorical && features > 0 {
        types[0] = true;
    }
    if categorical && features > 1 {
        types[1] = true;
    }
    assert(types@ =~= Seq::new(features as nat, |f: int| f < 2 && data is Categorical));
    types
}

/// Two groups of features: the even ones below `features`, and the odd ones.
pub open spec fn interleaved(groups: Option<Vec<Vec<u32>>>, features: u32) -> bool {
    match groups {
        Some(groups) => {
            &&& groups.len() == 2
            &&& groups[0]@ == Seq::new(((features + 1) / 2) as nat, |i: int| (2 * i) as u32)
            &&& groups[1]@ == Seq::new((features / 2) as nat, |i: int| (2 * i + 1) as u32)
        },
        None => false,
    }
}

/// The tree settings `tree` with the change made to them. What a row changes outside of them
/// leaves them as they are.
pub open spec fn changed(tree: TreeBoosterParameters, change: Change, features: u32, after: TreeBoosterParameters) -> bool {
    match change {
        Change::MaxBin(n) => after == (TreeBoosterParameters { max_bin: n, ..tree }),
        Change::MaxDepth(n) => after == (TreeBoosterParameters { max_depth: n, ..tree }),
        Change::Leaves(policy, n) => after.grow_policy@ == policy_name_spec(policy) && after == (TreeBoosterParameters {
            grow_policy: after.grow_policy,
            max_leaves: n,
            max_depth: 0,
            ..tree
        }),
        Change::Subsample(method, ratio) => after == (TreeBoosterParameters {
            subsample: ratio.bits_spec(),
            sampling_method: method,
            ..tree
        }),
        Change::ByTree(ratio) => after == (TreeBoosterParameters { colsample_bytree: ratio.bits_spec(), ..tree }),
        Change::ByLevel(ratio) => after == (TreeBoosterParameters { colsample_bylevel: ratio.bits_spec(), ..tree }),
        Change::ByNode(ratio) => after == (TreeBoosterParameters { colsample_bynode: ratio.bits_spec(), ..tree }),
        Change::Forest(n) => after == (TreeBoosterParameters {
            num_parallel_tree: n,
            subsample: Ratio::Half.bits_spec(),
            ..tree
        }),
        Change::Monotone => {
            &&& after.monotone_constraints@ == Seq::new(features as nat, |i: int| MonotoneConstraint::Increasing)
            &&& after == (TreeBoosterParameters { monotone_constraints: after.monotone_constraints, ..tree })
        },
        Change::Interaction => {
            &&& interleaved(after.interaction_constraints, features)
            &&& after == (TreeBoosterParameters { interaction_constraints: after.interaction_constraints, ..tree })
        },
        Change::CachedNodes(n) => after == (TreeBoosterParameters {
            max_cached_hist_node: Some(n),
            max_depth: 12,
            max_bin: 512,
            ..tree
        }),
        Change::Method(method) => after == (TreeBoosterParameters { tree_method: method, ..tree }),
        Change::VaryingHessian(method) => after == (TreeBoosterParameters { tree_method: method, ..tree }),
        Change::DenseColumn(ratio) => after == (TreeBoosterParameters {
            tree_method: TreeMethod::Exact,
            opt_dense_col: ratio.bits_spec(),
            ..tree
        }),
        Change::Partition(_) => after == (TreeBoosterParameters { max_cat_to_onehot: 1, ..tree }),
        Change::OneHot(n) => after == (TreeBoosterParameters { max_cat_to_onehot: (n + 1) as u32, ..tree }),
        Change::CatThreshold(_, most) => after == (TreeBoosterParameters {
            max_cat_to_onehot: 1,
            max_cat_threshold: most,
            ..tree
        }),
        Change::SparseThreshold(ratio, _, _) => after == (TreeBoosterParameters {
            sparse_threshold: ratio.wide_bits_spec(),
            ..tree
        }),
        Change::Strategy(strategy, _) => after == (TreeBoosterParameters { multi_strategy: strategy, ..tree }),
        _ => after == tree,
    }
}

/// Every other feature from `first` on.
fn every_other(first: u32, features: u32) -> (list: Vec<u32>)
    requires
        first <= 1,
    ensures
        list@ == Seq::new(((features + 1 - first) / 2) as nat, |i: int| (2 * i + first) as u32),
{
    let mut list: Vec<u32> = Vec::new();
    let mut f: u32 = first;
    while f < features
        invariant
            first <= 1,
            f == first + 2 * list.len(),
            list.len() <= (features + 1 - first) / 2,
            forall|i: int| 0 <= i < list.len() ==> #[trigger] list[i] == 2 * i + first,
        decreases features + 1 - f,
    {
        list.push(f);
        if features - f <= 2 {
            assert(list.len() == (features + 1 - first) / 2);
            assert(list@ =~= Seq::new(((features + 1 - first) / 2) as nat, |i: int| (2 * i + first) as u32));
            return list;
        }
        f += 2;
    }
    assert(list@ =~= Seq::new(((features + 1 - first) / 2) as nat, |i: int| (2 * i + first) as u32));
    list
}

/// Make a row's change to the tree settings of a sweep over so many features.
pub fn apply(tree: TreeBoosterParameters, change: Change, features: u32) -> (after: TreeBoosterParameters)
    requires
        match change {
            Change::OneHot(n) => n < u32::MAX,
            _ => true,
        },
    ensures
        changed(tree, change, features, after),
{
    match change {
        Change::MaxBin(n) => TreeBoosterParameters { max_bin: n, ..tree },
        Change::MaxDepth(n) => TreeBoosterParameters { max_depth: n, ..tree },
        Change::Leaves(policy, n) => TreeBoosterParameters {
            grow_policy: policy_name(policy).to_owned(),
            max_leaves: n,
            max_depth: 0,
            ..tree
        },
        Change::Subsample(method, ratio) => TreeBoosterParameters {
            subsample: ratio.bits(),
            sampling_method: method,
            ..tree
        },
        Change::ByTree(ratio) => TreeBoosterParameters { colsample_bytree: ratio.bits(), ..tree },
        Change::ByLevel(ratio) => TreeBoosterParameters { colsample_bylevel: ratio.bits(), ..tree },
        Change::ByNode(ratio) => TreeBoosterParameters { colsample_bynode: ratio.bits(), ..tree },
        Change::Forest(n) => TreeBoosterParameters { num_parallel_tree: n, subsample: Ratio::Half.bits(), ..tree },
        Change::Monotone => {
            let all: Vec<MonotoneConstraint> = vec![MonotoneConstraint::Increasing; features as usize];
            assert(all@ =~= Seq::new(features as nat, |i: int| MonotoneConstraint::Increasing));
            TreeBoosterParameters { monotone_constraints: all, ..tree }
        },
        Change::Interaction => {
            let even: Vec<u32> = every_other(0, features);
            let odd: Vec<u32> = every_other(1, features);
            assert(even@ =~= Seq::new(((features + 1) / 2) as nat, |i: int| (2 * i) as u32));
            assert(odd@ =~= Seq::new((features / 2) as nat, |i: int| (2 * i + 1) as u32));
            TreeBoosterParameters { interaction_constraints: Some(vec![even, odd]), ..tree }
        },
        Change::CachedNodes(n) => TreeBoosterParameters {
            max_cached_hist_node: Some(n),
            max_depth: 12,
            max_bin: 512,
            ..tree
        },
        Change::Method(method) => TreeBoosterParameters { tree_method: method, ..tree },
        Change::VaryingHessian(method) => TreeBoosterParameters { tree_method: method, ..tree },
        Change::DenseColumn(ratio) => TreeBoosterParameters {
            tree_method: TreeMethod::Exact,
            opt_dense_col: ratio.bits(),
            ..tree
        },
        Change::Partition(_) => TreeBoosterParameters { max_cat_to_onehot: 1, ..tree },
        Change::OneHot(n) => TreeBoosterParameters { max_cat_to_onehot: n + 1, ..tree },
        Change::CatThreshold(_, most) => TreeBoosterParameters {
            max_cat_to_onehot: 1,
            max_cat_threshold: most,
            ..tree
        },
        Change::SparseThreshold(ratio, _, _) => TreeBoosterParameters { sparse_threshold: ratio.wide_bits(), ..tree },
        Change::Strategy(strategy, _) => TreeBoosterParameters { multi_strategy: strategy, ..tree },
        _ => tree,
    }
}

/// The settings that are not about the model: the sweep's threads and device, and no messages.
/// Only the rows on thread scaling go by a thread count of their own.
pub open spec fn general_of(args: SweepArgs, change: Change) -> GeneralParameters {
    GeneralParameters {
        nthread: match change {
            Change::Threads(n) => n,
            _ => args.threads,
        },
        verbosity: Verbosity::Silent,
        device: args.device,
        validate_parameters: false,
        disable_default_eval_metric: false,
        use_rmm: false,
        fail_on_invalid_gpu_id: false,
    }
}

/// The bits of seven tenths.
pub const SEVEN_TENTHS_BITS: u32 = 0x3F33_3333;

/// The bits of one and a half.
pub const ONE_AND_A_HALF_BITS: u32 = 0x3FC0_0000;

/// `objective` is the one of a row, with its parameters.
pub open spec fn swept_objective(swept: SweptObjective, objective: Objective) -> bool {
    match swept {
        SweptObjective::SquaredError => objective == Objective::RegSquaredError,
        SweptObjective::AbsoluteError => objective == Objective::RegAbsoluteError,
        SweptObjective::PseudoHuberError => objective == (Objective::RegPseudoHuberError {
            huber_slope: Ratio::One.bits_spec(),
        }),
        SweptObjective::Logistic => objective == Objective::RegLogistic,
        SweptObjective::Poisson => objective == (Objective::CountPoisson { max_delta_step: SEVEN_TENTHS_BITS }),
        SweptObjective::Tweedie => objective == (Objective::RegTweedie {
            tweedie_variance_power: ONE_AND_A_HALF_BITS,
        }),
        SweptObjective::QuantileError => objective matches Objective::RegQuantileError { quantile_alpha }
            && quantile_alpha@ == seq![Ratio::Half.bits_spec()],
        SweptObjective::Cox => objective == Objective::SurvivalCox,
    }
}

/// The learning task of a row: the default one, but for the objective and the metric that the
/// row compares.
pub open spec fn learning_of(change: Change, learning: LearningTaskParameters) -> bool {
    &&& match change {
        Change::Objective(swept) => swept_objective(swept, learning.objective),
        Change::Classes(n) => learning.objective == (Objective::MultiSoftprob { num_class: n }),
        Change::VaryingHessian(_) => learning.objective == Objective::RegLogistic,
        _ => learning.objective == Objective::RegSquaredError,
    }
    &&& match change {
        Change::Metric(metric) => learning.eval_metric.len() == 1 && learning.eval_metric[0]@ == metric_name_spec(metric),
        _ => learning.eval_metric.len() == 0,
    }
    &&& learning.seed == 0
    &&& !learning.seed_per_iteration
    &&& learning.base_score is None
    &&& learning.boost_from_average
}

/// The booster of a row: the trees with its change made to them, with dropout at its rate, or a
/// linear model.
pub open spec fn booster_of(tree: TreeBoosterParameters, change: Change, features: u32, booster: BoosterType) -> bool {
    match change {
        Change::DropRate(ratio) => booster == BoosterType::Dart(
            DartParameters {
                tree,
                sample_type: DartSampleType::Uniform,
                normalize_type: DartNormalizeType::Tree,
                rate_drop: ratio.bits_spec(),
                one_drop: false,
                skip_drop: 0,
            },
        ),
        Change::Linear(updater, selector) => booster == BoosterType::Gblinear(
            LinearBoosterParameters { updater, feature_selector: selector },
        ),
        _ => booster matches BoosterType::Gbtree(after) && changed(tree, change, features, after),
    }
}

/// The name of a row's metric.
fn metrics_of(change: Change) -> (metrics: Vec<String>)
    ensures
        match change {
            Change::Metric(metric) => metrics.len() == 1 && metrics[0]@ == metric_name_spec(metric),
            _ => metrics.len() == 0,
        },
{
    let mut metrics: Vec<String> = Vec::new();
    match change {
        Change::Metric(metric) => {
            metrics.push(metric_name(metric).to_owned());
        },
        _ => {},
    }
    metrics
}

/// An objective that the sweep compares, with its parameters.
fn objective_of(swept: SweptObjective) -> (objective: Objective)
    ensures
        swept_objective(swept, objective),
{
    match swept {
        SweptObjective::SquaredError => Objective::RegSquaredError,
        SweptObjective::AbsoluteError => Objective::RegAbsoluteError,
        SweptObjective::PseudoHuberError => Objective::RegPseudoHuberError { huber_slope: Ratio::One.bits() },
        SweptObjective::Logistic => Objective::RegLogistic,
        SweptObjective::Poisson => Objective::CountPoisson { max_delta_step: SEVEN_TENTHS_BITS },
        SweptObjective::Tweedie => Objective::RegTweedie { tweedie_variance_power: ONE_AND_A_HALF_BITS },
        SweptObjective::QuantileError => {
            let quantile_alpha: Vec<u32> = vec![Ratio::Half.bits()];
            assert(quantile_alpha@ =~= seq![Ratio::Half.bits_spec()]);
            Objective::RegQuantileError { quantile_alpha }
        },
        SweptObjective::Cox => Objective::SurvivalCox,
    }
}

/// The settings of one row: the sweep's own, with the row's change made to the default trees,
/// the booster or the learning task.
pub fn settings(args: &SweepArgs, tree: TreeBoosterParameters, change: Change) -> (params: TrainingParameters)
    requires
        args.features <= u32::MAX,
        match change {
            Change::OneHot(n) => n < u32::MAX,
            _ => true,
        },
    ensures
        params.booster.general == general_of(*args, change),
        learning_of(change, params.booster.learning),
        booster_of(tree, change, args.features as u32, params.booster.booster),
        params.num_boost_round == args.rounds,
        params.early_stopping_rounds is None,
        params.maximize is None,
        params.verbose_eval == VerboseEval::Silent,
{
    let nthread: u32 = match change {
        Change::Threads(n) => n,
        _ => args.threads,
    };
    let objective: Objective = match change {
        Change::Objective(swept) => objective_of(swept),
        Change::Classes(n) => Objective::MultiSoftprob { num_class: n },
        Change::VaryingHessian(_) => Objective::RegLogistic,
        _ => Objective::RegSquaredError,
    };
    let booster: BoosterType = match change {
        Change::DropRate(ratio) => BoosterType::Dart(
            DartParameters {
                tree,
                sample_type: DartSampleType::Uniform,
                normalize_type: DartNormalizeType::Tree,
                rate_drop: ratio.bits(),
                one_drop: false,
                skip_drop: 0,
            },
        ),
        Change::Linear(updater, selector) => BoosterType::Gblinear(
            LinearBoosterParameters { updater, feature_selector: selector },
        ),
        _ => BoosterType::Gbtree(apply(tree, change, args.features as u32)),
    };
    let general = GeneralParameters {
        nthread,
        verbosity: Verbosity::Silent,
        device: args.device,
        ..GeneralParameters::default()
    };
    let learning = LearningTaskParameters {
        objective,
        eval_metric: metrics_of(change),
        ..LearningTaskParameters::default()
    };
    TrainingParameters {
        booster: BoosterParameters { general, learning, booster },
        num_boost_round: args.rounds,
        early_stopping_rounds: None,
        maximize: None,
        verbose_eval: VerboseEval::Silent,
    }
}

/// Thread scaling is the last group, with a row for each of 1, 2, 4 and 8 threads; every other
/// row of the sweep runs on the threads that were asked for.
pub proof fn lemma_threads(args: SweepArgs, layouts: Seq<(usize, usize)>, i: int, j: int)
    requires
        0 <= i < plan(layouts).len(),
        0 <= j < plan(layouts)[i].1.len(),
    ensures
        plan(layouts).len() == 21,
        plan(layouts)[20].0 == "nthread"@,
        general_of(args, plan(layouts)[i].1[j]).nthread == (if i < 20 {
            args.threads
        } else {
            seq![1u32, 2, 4, 8][j]
        }),
{
}

/// `part` stands in `text` from position `i` on.
pub open spec fn stands_at(text: Seq<char>, part: Seq<char>, i: int) -> bool {
    0 <= i && i + part.len() <= text.len() && text.subrange(i, i + part.len()) == part
}

/// Whether `part` stands anywhere in `text`.
fn contains(text: &Vec<char>, part: &Vec<char>) -> (yes: bool)
    ensures
        yes == exists|i: int| #[trigger] stands_at(text@, part@, i),
{
    if part.len() > text.len() {
        return false;
    }
    let last: usize = text.len() - part.len();
    let mut i: usize = 0;
    while i < last
        invariant
            part.len() <= text.len(),
            last == text.len() - part.len(),
            i <= last,
            forall|k: int| 0 <= k < i ==> !#[trigger] stands_at(text@, part@, k),
        decreases last - i,
    {
        if same_chars(&slice_of(text, i, i + part.len()), part) {
            assert(stands_at(text@, part@, i as int));
            return true;
        }
        i += 1;
    }
    let yes: bool = same_chars(&slice_of(text, last, text.len()), part);
    assert(yes == stands_at(text@, part@, last as int));
    yes
}

/// Whether a group is run: its name contains the filter, where there is one.
pub fn selected(name: &str, filter: &Option<String>) -> (yes: bool)
    ensures
        yes == (match *filter {
            Some(part) => exists|i: int| #[trigger] stands_at(name@, part@, i),
            None => true,
        }),
{
    match filter {
        None => true,
        Some(part) => contains(&chars_of(name), &chars_of(part.as_str())),
    }
}

/// The labels of the rows on bounded objectives: one in three is one, the others zero.
pub fn unit_labels(rows: usize) -> (labels: Vec<u32>)
    ensures
        labels@ == Seq::new(rows as nat, |i: int| if i % 3 == 0 {
            Ratio::One.bits_spec()
        } else {
            0u32
        }),
{
    let mut labels: Vec<u32> = Vec::new();
    let mut i: usize = 0;
    while i < rows
        invariant
            i <= rows,
            labels@ == Seq::new(i as nat, |k: int| if k % 3 == 0 {
                Ratio::One.bits_spec()
            } else {
                0u32
            }),
        decreases rows - i,
    {
        let ghost was = labels@;
        labels.push(if i % 3 == 0 {
            Ratio::One.bits()
        } else {
            0
        });
        i += 1;
        assert(labels@ =~= Seq::new(i as nat, |k: int| if k % 3 == 0 {
            Ratio::One.bits_spec()
        } else {
            0u32
        }));
    }
    labels
}

/// The values of a sparse matrix, row by row: one in four is missing, drawn by a generator
/// of its own. `values` are what the matrix holds before.
pub open spec fn masked(values: Seq<u32>, state: u64, n: int) -> Seq<u32>
    decreases n,
{
    if n <= 0 {
        Seq::empty()
    } else {
        masked(values, state, n - 1).push(
            if drawn(state, n) < 0x40_0000 {
                MISSING_BITS
            } else {
                values[n - 1]
            },
        )
    }
}

/// The state of a generator after `n` draws.
pub open spec fn state_after(state: u64, n: int) -> u64
    decreases n,
{
    if n <= 0 {
        state
    } else {
        shifted(state_after(state, n - 1))
    }
}

/// The top 24 bits of draw `n`, the first being draw one.
pub open spec fn drawn(state: u64, n: int) -> int {
    starred(state_after(state, n)) as int / 0x100_0000_0000
}

/// Where the mask of the sparse matrix starts.
pub const MASK_SEED: u64 = 0x9e37_79b9_7f4a_7c15;

/// Take a quarter of the values away, drawn rather than strided: a stride that shares a
/// factor with the row length would blank whole columns.
pub fn mask_values(values: &mut Vec<u32>)
    ensures
        final(values)@ == masked(old(values)@, MASK_SEED, old(values).len() as int),
{
    let ghost before = values@;
    let mut mask = Rng(MASK_SEED);
    let mut i: usize = 0;
    while i < values.len()
        invariant
            i <= values.len(),
            values.len() == before.len(),
            mask.0 == state_after(MASK_SEED, i as int),
            masked(before, MASK_SEED, i as int).len() == i,
            forall|k: int| 0 <= k < i ==> #[trigger] values[k] == masked(before, MASK_SEED, i as int)[k],
            forall|k: int| i <= k < values.len() ==> #[trigger] values[k] == before[k],
        decreases values.len() - i,
    {
        if mask.next_bits() < 0x40_0000 {
            values.set(i, MISSING_BITS);
        }
        i += 1;
    }
    assert(values@ =~= masked(before, MASK_SEED, before.len() as int));
}

/// The ratios stand in the order of their names, in either precision.
pub proof fn lemma_ratios()
    ensures
        lt_spec(Ratio::Zero.bits_spec(), Ratio::Tenth.bits_spec()),
        lt_spec(Ratio::Tenth.bits_spec(), Ratio::Fifth.bits_spec()),
        lt_spec(Ratio::Fifth.bits_spec(), Ratio::Quarter.bits_spec()),
        lt_spec(Ratio::Quarter.bits_spec(), Ratio::Half.bits_spec()),
        lt_spec(Ratio::Half.bits_spec(), Ratio::One.bits_spec()),
        wide_lt_spec(Ratio::Zero.wide_bits_spec(), Ratio::Tenth.wide_bits_spec()),
        wide_lt_spec(Ratio::Tenth.wide_bits_spec(), Ratio::Fifth.wide_bits_spec()),
        wide_lt_spec(Ratio::Fifth.wide_bits_spec(), Ratio::Quarter.wide_bits_spec()),
        wide_lt_spec(Ratio::Quarter.wide_bits_spec(), Ratio::Half.wide_bits_spec()),
        wide_lt_spec(Ratio::Half.wide_bits_spec(), Ratio::One.wide_bits_spec()),
{
}

/// A change sets what it is named after. What no change of its kind sets stays as it was: the
/// learning rate, the penalties and the rest of what the sweep leaves alone always.
pub proof fn lemma_change_sets(tree: TreeBoosterParameters, change: Change, features: u32, after: TreeBoosterParameters)
    requires
        changed(tree, change, features, after),
    ensures
        after.eta == tree.eta && after.gamma == tree.gamma && after.lambda == tree.lambda && after.alpha == tree.alpha,
        after.min_child_weight == tree.min_child_weight && after.max_delta_step == tree.max_delta_step,
        after.process_type == tree.process_type && after.refresh_leaf == tree.refresh_leaf,
        change matches Change::MaxBin(n) ==> after.max_bin == n,
        change matches Change::CachedNodes(n) ==> after.max_cached_hist_node == Some(n) && after.max_depth == 12
            && after.max_bin == 512,
        !(change is MaxBin || change is CachedNodes) ==> after.max_bin == tree.max_bin,
        change matches Change::MaxDepth(n) ==> after.max_depth == n,
        change matches Change::Leaves(_, n) ==> after.max_leaves == n && after.max_depth == 0,
        !(change is MaxDepth || change is Leaves || change is CachedNodes) ==> after.max_depth == tree.max_depth,
        !(change is Leaves) ==> after.max_leaves == tree.max_leaves && after.grow_policy == tree.grow_policy,
        change matches Change::Subsample(method, ratio) ==> after.subsample == ratio.bits_spec()
            && after.sampling_method == method,
        change matches Change::Forest(n) ==> after.num_parallel_tree == n && after.subsample == 0x3F00_0000,
        !(change is Subsample || change is Forest) ==> after.subsample == tree.subsample,
        !(change is Forest) ==> after.num_parallel_tree == tree.num_parallel_tree,
        change matches Change::ByTree(ratio) ==> after.colsample_bytree == ratio.bits_spec(),
        !(change is ByTree) ==> after.colsample_bytree == tree.colsample_bytree,
        change matches Change::ByLevel(ratio) ==> after.colsample_bylevel == ratio.bits_spec(),
        !(change is ByLevel) ==> after.colsample_bylevel == tree.colsample_bylevel,
        change matches Change::ByNode(ratio) ==> after.colsample_bynode == ratio.bits_spec(),
        !(change is ByNode) ==> after.colsample_bynode == tree.colsample_bynode,
        change is Monotone ==> after.monotone_constraints.len() == features && forall|f: int|
            0 <= f < features ==> #[trigger] after.monotone_constraints[f] is Increasing,
        !(change is Monotone) ==> after.monotone_constraints == tree.monotone_constraints,
        !(change is Interaction) ==> after.interaction_constraints == tree.interaction_constraints,
        change matches Change::Method(method) ==> after.tree_method == method,
        change matches Change::VaryingHessian(method) ==> after.tree_method == method,
        change matches Change::DenseColumn(ratio) ==> after.tree_method is Exact && after.opt_dense_col
            == ratio.bits_spec(),
        !(change is Method || change is VaryingHessian || change is DenseColumn) ==> after.tree_method
            == tree.tree_method,
        change is Partition || change is CatThreshold ==> after.max_cat_to_onehot == 1,
        change matches Change::OneHot(n) && n < u32::MAX ==> after.max_cat_to_onehot == change->OneHot_0 + 1,
        change matches Change::CatThreshold(_, most) ==> after.max_cat_threshold == most,
        !(change is CatThreshold) ==> after.max_cat_threshold == tree.max_cat_threshold,
        change matches Change::SparseThreshold(ratio, _, _) ==> after.sparse_threshold == ratio.wide_bits_spec(),
        change matches Change::Strategy(strategy, _) ==> after.multi_strategy == strategy,
        !(change is Strategy) ==> after.multi_strategy == tree.multi_strategy,
{
}

/// The two interaction groups share the features out: the even ones and the odd ones.
pub proof fn lemma_interleaved(groups: Option<Vec<Vec<u32>>>, features: u32, f: u32)
    requires
        interleaved(groups, features),
        f < features,
    ensures
        groups is Some && groups->0.len() == 2,
        groups->0[f as int % 2]@.contains(f),
        !groups->0[1 - f as int % 2]@.contains(f),
{
    let all = groups->0;
    let own = all[f as int % 2]@;
    let other = all[1 - f as int % 2]@;
    assert(own[f as int / 2] == f);
    if other.contains(f) {
        let k = choose|k: int| 0 <= k < other.len() && other[k] == f;
        assert(other[k] % 2 != f % 2);
    }
}

/// Only a change of the threads moves the number of threads, and no change moves the device; only a
/// dropout rate makes a dropout booster and only a linear change a linear one.
pub proof fn lemma_change_kinds(
    args: SweepArgs,
    tree: TreeBoosterParameters,
    change: Change,
    features: u32,
    booster: BoosterType,
)
    requires
        booster_of(tree, change, features, booster),
    ensures
        change matches Change::Threads(n) ==> general_of(args, change).nthread == n,
        !(change is Threads) ==> general_of(args, change).nthread == args.threads,
        general_of(args, change).device == args.device,
        general_of(args, change).verbosity is Silent,
        booster is Dart <==> change is DropRate,
        booster is Gblinear <==> change is Linear,
        booster matches BoosterType::Dart(dart) ==> dart.tree == tree && dart.rate_drop
            == change->DropRate_0.bits_spec() && !dart.one_drop && dart.skip_drop == 0,
        booster matches BoosterType::Gblinear(linear) ==> linear.updater == change->Linear_0
            && linear.feature_selector == change->Linear_1,
        booster matches BoosterType::Gbtree(after) ==> after.eta == tree.eta && after.lambda == tree.lambda,
{
}

/// Only a change of the objective, the classes or the hessian moves the objective, and only a change
/// of the metric asks for one.
pub proof fn lemma_change_learning(change: Change, learning: LearningTaskParameters)
    requires
        learning_of(change, learning),
    ensures
        change matches Change::Classes(n) ==> (learning.objective matches Objective::MultiSoftprob { num_class }
            && num_class == n),
        change is VaryingHessian ==> learning.objective is RegLogistic,
        !(change is Objective || change is Classes || change is VaryingHessian) ==> learning.objective
            is RegSquaredError,
        change is Metric <==> learning.eval_metric.len() > 0,
        change == Change::Objective(SweptObjective::Logistic) ==> learning.objective is RegLogistic,
        change == Change::Objective(SweptObjective::SquaredError) ==> learning.objective is RegSquaredError,
        change == Change::Objective(SweptObjective::AbsoluteError) ==> learning.objective is RegAbsoluteError,
        change == Change::Objective(SweptObjective::PseudoHuberError) ==> learning.objective is RegPseudoHuberError,
        change == Change::Objective(SweptObjective::Poisson) ==> learning.objective is CountPoisson,
        change == Change::Objective(SweptObjective::Tweedie) ==> learning.objective is RegTweedie,
        change == Change::Objective(SweptObjective::QuantileError) ==> learning.objective is RegQuantileError,
        change == Change::Objective(SweptObjective::Cox) ==> learning.objective is SurvivalCox,
        learning.seed == 0 && learning.boost_from_average && learning.base_score is None,
{
}

/// A size in mebibytes is rounded to the nearest tenth.
pub proof fn lemma_mebibyte_tenths(bytes: int)
    requires
        bytes >= 0,
    ensures
        -0x8_0000 <= 0x10_0000 * mebibyte_tenths(bytes) - 10 * bytes <= 0x8_0000,
{
}

/// A value is taken out exactly where its draw falls in the lowest quarter, and stays otherwise.
pub proof fn lemma_masked(values: Seq<u32>, state: u64, n: int, i: int)
    requires
        0 <= i < n,
    ensures
        masked(values, state, n).len() == n,
        drawn(state, i + 1) < 0x40_0000 ==> masked(values, state, n)[i] == MISSING_BITS,
        drawn(state, i + 1) >= 0x40_0000 ==> masked(values, state, n)[i] == values[i],
    decreases n,
{
    assert(masked(values, state, 0).len() == 0);
    if i < n - 1 {
        lemma_masked(values, state, n - 1, i);
    } else if n > 1 {
        lemma_masked(values, state, n - 1, 0);
    }
}

/// A row is labelled by the setting it changes and the value it gives it.
pub proof fn lemma_labels(n: u32, ratio: Ratio, features: usize)
    ensures
        label_spec(Change::MaxBin(n), features) == "max_bin="@ + decimal(n as nat),
        label_spec(Change::MaxDepth(n), features) == "max_depth="@ + decimal(n as nat),
        label_spec(Change::Leaves(GrowPolicy::DepthWise, n), features) == "depthwise"@ + "/max_leaves="@ + decimal(
            n as nat,
        ),
        label_spec(Change::Leaves(GrowPolicy::LossGuide, n), features) == "lossguide"@ + "/max_leaves="@ + decimal(
            n as nat,
        ),
        label_spec(Change::Subsample(SamplingMethod::Uniform, ratio), features) == "uniform"@ + "/subsample="@
            + ratio.label(),
        label_spec(Change::ByTree(ratio), features) == "colsample_bytree="@ + ratio.label(),
        label_spec(Change::ByLevel(ratio), features) == "colsample_bylevel="@ + ratio.label(),
        label_spec(Change::ByNode(ratio), features) == "colsample_bynode="@ + ratio.label(),
        label_spec(Change::Forest(n), features) == "num_parallel_tree="@ + decimal(n as nat),
        label_spec(Change::CachedNodes(n as u64), features) == "max_cached_hist_node="@ + decimal(n as nat),
        label_spec(Change::Classes(n), features) == "num_class="@ + decimal(n as nat),
        label_spec(Change::DropRate(ratio), features) == "dart/rate_drop="@ + ratio.label(),
        label_spec(Change::DenseColumn(ratio), features) == "exact/opt_dense_col="@ + ratio.label(),
        label_spec(Change::Threads(n), features) == "nthread="@ + decimal(n as nat),
        Ratio::Zero.label() == "0"@ && Ratio::Tenth.label() == "0.1"@ && Ratio::Fifth.label() == "0.2"@,
        Ratio::Quarter.label() == "0.25"@ && Ratio::Half.label() == "0.5"@ && Ratio::One.label() == "1"@,
{
}

/// Every row of a group changes what the group is named after, and no two rows of it change it to the
/// same: more bins, more depth, more trees, more classes and more threads row by row, and fewer
/// cached nodes and denser columns.
pub proof fn lemma_groups_vary_one_thing(layouts: Seq<(usize, usize)>, j: int)
    requires
        0 <= j,
    ensures
        ({
            let rows = plan(layouts)[0].1;
            &&& plan(layouts)[0].0 == "max_bin"@
            &&& j < rows.len() ==> rows[j] is MaxBin
            &&& j + 1 < rows.len() ==> rows[j]->MaxBin_0 < rows[j + 1]->MaxBin_0
        }),
        ({
            let rows = plan(layouts)[1].1;
            &&& plan(layouts)[1].0 == "max_depth"@
            &&& j < rows.len() ==> rows[j] is MaxDepth
            &&& j + 1 < rows.len() ==> rows[j]->MaxDepth_0 < rows[j + 1]->MaxDepth_0
        }),
        ({
            let rows = plan(layouts)[2].1;
            &&& plan(layouts)[2].0 == "grow_policy"@
            &&& j < rows.len() ==> rows[j] is Leaves
        }),
        ({
            let rows = plan(layouts)[5].1;
            &&& plan(layouts)[5].0 == "num_parallel_tree"@
            &&& j < rows.len() ==> rows[j] is Forest
            &&& j + 1 < rows.len() ==> rows[j]->Forest_0 < rows[j + 1]->Forest_0
        }),
        ({
            let rows = plan(layouts)[7].1;
            &&& plan(layouts)[7].0 == "max_cached_hist_node"@
            &&& j < rows.len() ==> rows[j] is CachedNodes
            &&& j + 1 < rows.len() ==> rows[j]->CachedNodes_0 > rows[j + 1]->CachedNodes_0
        }),
        ({
            let rows = plan(layouts)[8].1;
            &&& plan(layouts)[8].0 == "objective"@
            &&& j < rows.len() ==> rows[j] is Objective
        }),
        ({
            let rows = plan(layouts)[9].1;
            &&& plan(layouts)[9].0 == "num_class"@
            &&& j < rows.len() ==> rows[j] is Classes
            &&& j + 1 < rows.len() ==> rows[j]->Classes_0 < rows[j + 1]->Classes_0
        }),
        ({
            let rows = plan(layouts)[10].1;
            &&& plan(layouts)[10].0 == "eval_metric"@
            &&& j < rows.len() ==> rows[j] is Metric
        }),
        ({
            let rows = plan(layouts)[13].1;
            &&& plan(layouts)[13].0 == "opt_dense_col"@
            &&& j < rows.len() ==> rows[j] is DenseColumn
            &&& j + 1 < rows.len() ==> lt_spec(
                rows[j + 1]->DenseColumn_0.bits_spec(),
                rows[j]->DenseColumn_0.bits_spec(),
            )
        }),
        ({
            let rows = plan(layouts)[20].1;
            &&& plan(layouts)[20].0 == "nthread"@
            &&& j < rows.len() ==> rows[j] is Threads
            &&& j + 1 < rows.len() ==> rows[j]->Threads_0 < rows[j + 1]->Threads_0
        }),
{
}

} // verus!
