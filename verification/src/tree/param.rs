//! What growing a tree reads of a fit's settings.

use crate::parameters::{
    DefaultDirection, Device, MonotoneConstraint, ProcessType, SamplingMethod, TreeUpdaterName,
};
use vstd::prelude::*;

verus! {

/// The gain a split has to exceed: one millionth.
pub const RT_EPS: u32 = 0x3586_37BD;

/// Which node is split next.
#[derive(Clone, Copy, Debug, PartialEq, Eq, Structural)]
pub enum GrowPolicy {
    /// Level by level.
    DepthWise,
    /// Best gain first.
    LossGuide,
}

/// The settings of one fit's trees.
#[derive(Clone, Debug, PartialEq, Eq)]
pub struct TrainParam {
    pub learning_rate: u32,
    pub min_split_loss: u32,
    /// The depth no node goes below; none where it is not positive.
    pub max_depth: i32,
    /// The leaves no tree has more of; none where it is not positive.
    pub max_leaves: i32,
    pub max_bin: u32,
    pub grow_policy: GrowPolicy,
    pub min_child_weight: u32,
    pub reg_lambda: u32,
    pub reg_alpha: u32,
    pub max_delta_step: u32,
    pub subsample: u32,
    pub sampling_method: SamplingMethod,
    pub colsample_bytree: u32,
    pub colsample_bylevel: u32,
    pub colsample_bynode: u32,
    pub num_parallel_tree: u32,
    pub monotone_constraints: Vec<MonotoneConstraint>,
    pub interaction_constraints: Option<Vec<Vec<u32>>>,
    pub max_cached_hist_node: u64,
    pub multi_output_tree: bool,
    pub sparse_threshold: u64,
    pub max_cat_to_onehot: u32,
    pub max_cat_threshold: u32,
    pub default_direction: DefaultDirection,
    pub opt_dense_col: u32,
    pub updaters: Vec<TreeUpdaterName>,
    pub process_type: ProcessType,
    pub refresh_leaf: bool,
    pub device: Device,
}

} // verus!
