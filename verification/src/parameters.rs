//! The settings a fit is configured with.
//!
//! Single-precision settings are kept as bit patterns (see [`crate::float_bits`]), and the
//! double-precision ones as their 64-bit patterns.

use crate::text::{chars_of, decimal, lemma_number_of_decimal, lemma_parted, number, parse_number, parted_at, same_chars, split_once};
use vstd::prelude::*;

verus! {

/// How much a fit reports.
#[derive(Clone, Copy, Debug, PartialEq, Eq, Structural)]
pub enum Verbosity {
    Silent,
    Warning,
    Info,
    Debug,
}

/// Which processor a fit runs on.
#[derive(Clone, Copy, Debug, PartialEq, Eq, Structural)]
pub enum Device {
    Cpu,
    Cuda(Option<u32>),
    Gpu(Option<u32>),
    Sycl(Option<u32>),
}

/// The device of a kind, and which of several.
pub open spec fn device_kind(kind: Seq<char>, which: Option<u32>) -> Option<Device> {
    if kind == "cuda"@ {
        Some(Device::Cuda(which))
    } else if kind == "gpu"@ {
        Some(Device::Gpu(which))
    } else if kind == "sycl"@ {
        Some(Device::Sycl(which))
    } else {
        None
    }
}

/// The device that a text spells: `cpu`, or a kind of device, with its number after a colon
/// where one of several is meant.
pub open spec fn device_spelled(text: Seq<char>) -> Option<Device> {
    match parted_at(text, ':') {
        None => if text == "cpu"@ {
            Some(Device::Cpu)
        } else {
            device_kind(text, None)
        },
        Some((kind, which)) => match number(which, u32::MAX as int) {
            Some(n) => device_kind(kind, Some(n as u32)),
            None => None,
        },
    }
}

fn device_of(kind: &Vec<char>, which: Option<u32>) -> (device: Option<Device>)
    ensures
        device == device_kind(kind@, which),
{
    if same_chars(kind, &chars_of("cuda")) {
        Some(Device::Cuda(which))
    } else if same_chars(kind, &chars_of("gpu")) {
        Some(Device::Gpu(which))
    } else if same_chars(kind, &chars_of("sycl")) {
        Some(Device::Sycl(which))
    } else {
        None
    }
}

impl Device {
    /// The device that a text spells.
    pub fn parse(text: &str) -> (device: Option<Device>)
        ensures
            device == device_spelled(text@),
    {
        let chars: Vec<char> = chars_of(text);
        match split_once(&chars, ':') {
            None => if same_chars(&chars, &chars_of("cpu")) {
                Some(Device::Cpu)
            } else {
                device_of(&chars, None)
            },
            Some((kind, which)) => match parse_number(&which, u32::MAX as u64) {
                Some(n) => device_of(&kind, Some(n as u32)),
                None => None,
            },
        }
    }

    pub fn is_cpu(&self) -> (yes: bool)
        ensures
            yes == (*self is Cpu),
    {
        matches!(self, Device::Cpu)
    }

    pub fn is_sycl(&self) -> (yes: bool)
        ensures
            yes == (*self is Sycl),
    {
        matches!(self, Device::Sycl(_))
    }

    /// Which of several devices of a kind is meant.
    pub fn ordinal(&self) -> (which: Option<u32>)
        ensures
            which == (match *self {
                Device::Cpu => None,
                Device::Cuda(n) => n,
                Device::Gpu(n) => n,
                Device::Sycl(n) => n,
            }),
    {
        match *self {
            Device::Cpu => None,
            Device::Cuda(n) => n,
            Device::Gpu(n) => n,
            Device::Sycl(n) => n,
        }
    }
}

/// One stage of the pipeline that a round's trees go through.
#[derive(Clone, Copy, Debug, PartialEq, Eq, Structural)]
pub enum TreeUpdaterName {
    GrowColMaker,
    GrowHistMaker,
    GrowQuantileHistMaker,
    GrowGpuHist,
    GrowGpuApprox,
    Sync,
    Refresh,
    Prune,
}

impl TreeUpdaterName {
    /// The stage rewrites a tree that exists rather than growing one.
    pub open spec fn modifies(self) -> bool {
        self is Sync || self is Refresh || self is Prune
    }

    pub fn can_modify_tree(&self) -> (yes: bool)
        ensures
            yes == self.modifies(),
            yes <==> *self is Sync || *self is Refresh || *self is Prune,
    {
        matches!(self, TreeUpdaterName::Sync | TreeUpdaterName::Refresh | TreeUpdaterName::Prune)
    }

    /// The name the stage is configured by.
    pub open spec fn label(self) -> Seq<char> {
        match self {
            TreeUpdaterName::GrowColMaker => "grow_colmaker"@,
            TreeUpdaterName::GrowHistMaker => "grow_histmaker"@,
            TreeUpdaterName::GrowQuantileHistMaker => "grow_quantile_histmaker"@,
            TreeUpdaterName::GrowGpuHist => "grow_gpu_hist"@,
            TreeUpdaterName::GrowGpuApprox => "grow_gpu_approx"@,
            TreeUpdaterName::Sync => "sync"@,
            TreeUpdaterName::Refresh => "refresh"@,
            TreeUpdaterName::Prune => "prune"@,
        }
    }

    pub fn as_str(&self) -> (name: &'static str)
        ensures
            name@ == self.label(),
            *self is GrowColMaker ==> name@ == "grow_colmaker"@,
            *self is GrowHistMaker ==> name@ == "grow_histmaker"@,
            *self is GrowQuantileHistMaker ==> name@ == "grow_quantile_histmaker"@,
            *self is GrowGpuHist ==> name@ == "grow_gpu_hist"@,
            *self is GrowGpuApprox ==> name@ == "grow_gpu_approx"@,
            *self is Sync ==> name@ == "sync"@,
            *self is Refresh ==> name@ == "refresh"@,
            *self is Prune ==> name@ == "prune"@,
    {
        match self {
            TreeUpdaterName::GrowColMaker => "grow_colmaker",
            TreeUpdaterName::GrowHistMaker => "grow_histmaker",
            TreeUpdaterName::GrowQuantileHistMaker => "grow_quantile_histmaker",
            TreeUpdaterName::GrowGpuHist => "grow_gpu_hist",
            TreeUpdaterName::GrowGpuApprox => "grow_gpu_approx",
            TreeUpdaterName::Sync => "sync",
            TreeUpdaterName::Refresh => "refresh",
            TreeUpdaterName::Prune => "prune",
        }
    }
}

/// Whether a round grows trees or revisits the ones a model holds.
#[derive(Clone, Copy, Debug, PartialEq, Eq, Structural)]
pub enum ProcessType {
    Default,
    Update,
}

/// How several outputs share trees.
#[derive(Clone, Copy, Debug, PartialEq, Eq, Structural)]
pub enum MultiStrategy {
    OneOutputPerTree,
    MultiOutputTree,
}

/// How a tree's rows are drawn.
#[derive(Clone, Copy, Debug, PartialEq, Eq, Structural)]
pub enum SamplingMethod {
    Uniform,
    GradientBased,
}

/// Where the `exact` grower sends a missing value.
#[derive(Clone, Copy, Debug, PartialEq, Eq, Structural)]
pub enum DefaultDirection {
    Learn,
    Left,
    Right,
}

/// The direction a feature's effect is held to.
#[derive(Clone, Copy, Debug, PartialEq, Eq, Structural)]
pub enum MonotoneConstraint {
    Decreasing,
    Unconstrained,
    Increasing,
}

/// How a booster looks for splits.
#[derive(Clone, Copy, Debug, PartialEq, Eq, Structural)]
pub enum TreeMethod {
    Auto,
    Hist,
    Approx,
    Exact,
}

/// Settings of a tree booster.
#[derive(Clone, Debug, PartialEq, Eq)]
pub struct TreeBoosterParameters {
    pub eta: u32,
    pub gamma: u32,
    pub max_depth: u32,
    pub max_leaves: u32,
    pub max_bin: u32,
    pub tree_method: TreeMethod,
    pub grow_policy: String,
    pub min_child_weight: u32,
    pub lambda: u32,
    pub alpha: u32,
    pub max_delta_step: u32,
    pub subsample: u32,
    pub sampling_method: SamplingMethod,
    pub colsample_bytree: u32,
    pub colsample_bylevel: u32,
    pub colsample_bynode: u32,
    pub num_parallel_tree: u32,
    pub monotone_constraints: Vec<MonotoneConstraint>,
    pub interaction_constraints: Option<Vec<Vec<u32>>>,
    pub multi_strategy: MultiStrategy,
    /// Histograms kept for reuse; what the device suggests where this is not said.
    pub max_cached_hist_node: Option<u64>,
    pub sparse_threshold: u64,
    pub max_cat_to_onehot: u32,
    pub max_cat_threshold: u32,
    pub default_direction: DefaultDirection,
    pub opt_dense_col: u32,
    pub process_type: ProcessType,
    pub refresh_leaf: bool,
    pub debug_synchronize: bool,
}

/// How a linear model's weights are updated.
#[derive(Clone, Copy, Debug, PartialEq, Eq, Structural)]
pub enum LinearUpdater {
    Shotgun,
    CoordDescent,
}

/// In which order a linear model's features are updated.
#[derive(Clone, Copy, Debug, PartialEq, Eq, Structural)]
pub enum FeatureSelector {
    Cyclic,
    Shuffle,
    Random,
    Greedy,
    Thrifty,
}

/// Settings of a linear booster.
#[derive(Clone, Copy, Debug, PartialEq, Eq, Structural)]
pub struct LinearBoosterParameters {
    pub updater: LinearUpdater,
    pub feature_selector: FeatureSelector,
}

/// What a fit minimises.
#[derive(Clone, Debug, PartialEq, Eq)]
pub enum Objective {
    RegSquaredError,
    RegAbsoluteError,
    RegPseudoHuberError { huber_slope: u32 },
    RegLogistic,
    CountPoisson { max_delta_step: u32 },
    RegTweedie { tweedie_variance_power: u32 },
    RegQuantileError { quantile_alpha: Vec<u32> },
    SurvivalCox,
    MultiSoftprob { num_class: u32 },
}

/// How DART picks the trees it drops.
#[derive(Clone, Copy, Debug, PartialEq, Eq, Structural)]
pub enum DartSampleType {
    Uniform,
    Weighted,
}

/// How DART rescales what it dropped.
#[derive(Clone, Copy, Debug, PartialEq, Eq, Structural)]
pub enum DartNormalizeType {
    Tree,
    Forest,
}

/// Settings of a `dart` booster.
#[derive(Clone, Debug, PartialEq, Eq)]
pub struct DartParameters {
    pub tree: TreeBoosterParameters,
    pub sample_type: DartSampleType,
    pub normalize_type: DartNormalizeType,
    pub rate_drop: u32,
    pub one_drop: bool,
    pub skip_drop: u32,
}

/// Settings that are not about the model.
#[derive(Clone, Copy, Debug, PartialEq, Eq)]
pub struct GeneralParameters {
    /// Requested thread count; `0` means every core available.
    pub nthread: u32,
    pub verbosity: Verbosity,
    pub device: Device,
    pub validate_parameters: bool,
    pub disable_default_eval_metric: bool,
    pub use_rmm: bool,
    pub fail_on_invalid_gpu_id: bool,
}

impl Default for GeneralParameters {
    fn default() -> (general: Self)
        ensures
            general == (GeneralParameters {
                nthread: 0,
                verbosity: Verbosity::Warning,
                device: Device::Cpu,
                validate_parameters: false,
                disable_default_eval_metric: false,
                use_rmm: false,
                fail_on_invalid_gpu_id: false,
            }),
    {
        GeneralParameters {
            nthread: 0,
            verbosity: Verbosity::Warning,
            device: Device::Cpu,
            validate_parameters: false,
            disable_default_eval_metric: false,
            use_rmm: false,
            fail_on_invalid_gpu_id: false,
        }
    }
}

/// Settings of the learning task.
#[derive(Clone, Debug, PartialEq, Eq)]
pub struct LearningTaskParameters {
    pub objective: Objective,
    /// The metrics a fit reports, by name; the objective's own where there are none.
    pub eval_metric: Vec<String>,
    pub seed: i64,
    /// Reseed the engine at the start of every boosting round.
    pub seed_per_iteration: bool,
    /// The intercept, where it is not estimated from the labels.
    pub base_score: Option<u32>,
    pub boost_from_average: bool,
}

impl Default for LearningTaskParameters {
    fn default() -> (learning: Self)
        ensures
            learning.objective == Objective::RegSquaredError,
            learning.eval_metric@ == Seq::<String>::empty(),
            learning.seed == 0,
            learning.seed_per_iteration == false,
            learning.base_score is None,
            learning.boost_from_average == true,
    {
        LearningTaskParameters {
            objective: Objective::RegSquaredError,
            eval_metric: Vec::new(),
            seed: 0,
            seed_per_iteration: false,
            base_score: None,
            boost_from_average: true,
        }
    }
}

/// Which booster a fit runs.
#[derive(Clone, Debug, PartialEq, Eq)]
pub enum BoosterType {
    Gbtree(TreeBoosterParameters),
    Dart(DartParameters),
    Gblinear(LinearBoosterParameters),
}

/// The settings of a model.
#[derive(Clone, Debug, PartialEq, Eq)]
pub struct BoosterParameters {
    pub general: GeneralParameters,
    pub learning: LearningTaskParameters,
    pub booster: BoosterType,
}

/// How often a fit prints its scores.
#[derive(Clone, Copy, Debug, PartialEq, Eq, Structural)]
pub enum VerboseEval {
    Silent,
    Every(u32),
}

/// The settings of a fit.
#[derive(Clone, Debug, PartialEq, Eq)]
pub struct TrainingParameters {
    pub booster: BoosterParameters,
    pub num_boost_round: u32,
    pub early_stopping_rounds: Option<u32>,
    pub maximize: Option<bool>,
    pub verbose_eval: VerboseEval,
}

/// What a prediction is of.
#[derive(Clone, Copy, Debug, PartialEq, Eq, Structural)]
pub enum PredictionType {
    Value,
    Margin,
    Leaf,
    Contribution,
    ApproxContribution,
    Interaction,
    ApproxInteraction,
}

impl PredictionType {
    /// Whether the contributions are approximate ones.
    pub fn approx_contribs(&self) -> (yes: bool)
        ensures
            yes == (*self is ApproxContribution || *self is ApproxInteraction),
    {
        matches!(self, PredictionType::ApproxContribution | PredictionType::ApproxInteraction)
    }
}

/// The rounds a prediction uses; all of them where both ends are zero.
#[derive(Clone, Copy, Debug, PartialEq, Eq, Structural)]
pub struct IterationRange {
    pub begin: u32,
    pub end: u32,
}

impl Default for IterationRange {
    fn default() -> (range: Self)
        ensures
            range == (IterationRange { begin: 0, end: 0 }),
    {
        IterationRange { begin: 0, end: 0 }
    }
}

/// The settings of a prediction.
#[derive(Clone, Copy, Debug, PartialEq, Eq, Structural)]
pub struct PredictParameters {
    pub predict_type: PredictionType,
    pub iteration_range: IterationRange,
    /// Predict as a training round would, with dropout.
    pub training: bool,
    /// Report the full rank of every kind of prediction.
    pub strict_shape: bool,
    pub validate_features: bool,
}

/// A device is spelled by its kind alone, or by its kind, a colon and its number in decimal digits;
/// the processor takes no number.
pub proof fn lemma_device_spelled(n: u32)
    ensures
        device_spelled("cpu"@) == Some(Device::Cpu),
        device_spelled("cuda"@) == Some(Device::Cuda(None)),
        device_spelled("gpu"@) == Some(Device::Gpu(None)),
        device_spelled("sycl"@) == Some(Device::Sycl(None)),
        device_spelled("cuda"@.push(':') + decimal(n as nat)) == Some(Device::Cuda(Some(n))),
        device_spelled("gpu"@.push(':') + decimal(n as nat)) == Some(Device::Gpu(Some(n))),
        device_spelled("sycl"@.push(':') + decimal(n as nat)) == Some(Device::Sycl(Some(n))),
        device_spelled("cpu"@.push(':') + decimal(n as nat)) is None,
{
    reveal_strlit("cpu");
    reveal_strlit("cuda");
    reveal_strlit("gpu");
    reveal_strlit("sycl");
    assert("gpu"@[0] == 'g' && "cpu"@[0] == 'c');
    assert("sycl"@[0] == 's' && "cuda"@[0] == 'c');
    lemma_number_of_decimal(n as nat, u32::MAX as int);
    lemma_parted("cpu"@, ':', decimal(n as nat));
    lemma_parted("cuda"@, ':', decimal(n as nat));
    lemma_parted("gpu"@, ':', decimal(n as nat));
    lemma_parted("sycl"@, ':', decimal(n as nat));
}

/// Nothing else spells a device: a text without a number is one of the four names.
pub proof fn lemma_device_names(text: Seq<char>)
    ensures
        device_spelled(text) == Some(Device::Cpu) ==> text == "cpu"@,
        device_spelled(text) == Some(Device::Cuda(None)) ==> text == "cuda"@,
        device_spelled(text) == Some(Device::Gpu(None)) ==> text == "gpu"@,
        device_spelled(text) == Some(Device::Sycl(None)) ==> text == "sycl"@,
{
}

} // verus!
