//! Histogram tree growth over a quantised matrix.
//!
//! Gradients are quantised to fixed point, so that every sum of them is an exact 64-bit
//! integer and does not depend on the order in which it is taken. Most kernels are written
//! in their serial shape: one unit owns a whole work item (a tile of rows, a row chunk of
//! a node, a feature of a node) and nothing it writes is another unit's to read. Where the
//! units of a cube share an item, in [`hist_grid`] and [`shared_search`], they are proved to
//! come to the same.

pub mod agreement;
pub mod categorical;
pub mod device_sort;
pub mod ellpack;
pub mod engine;
pub mod evaluate_multi;
pub mod evaluate_splits;
pub mod evaluation;
pub mod expand;
pub mod frontier;
pub mod grower;
pub mod grown;
pub mod growth;
pub mod hist_grid;
pub mod histogram;
pub mod launch;
pub mod linear;
pub mod objective;
pub mod one_target;
pub mod pairs;
pub mod quantiser;
pub mod routes;
pub mod row_partitioner;
pub mod segments;
pub mod shared_search;
pub mod sketch;
pub mod split_rules;
pub mod tables;
pub mod tuning;

use vstd::prelude::*;

verus! {

/// Fixed-point gradient pair.
#[derive(Clone, Copy, Debug, PartialEq, Eq, Structural)]
pub struct GradientPairInt64 {
    pub grad: i64,
    pub hess: i64,
}

impl Default for GradientPairInt64 {
    fn default() -> (zero: Self)
        ensures
            zero.grad == 0,
            zero.hess == 0,
    {
        GradientPairInt64 { grad: 0, hess: 0 }
    }
}

impl core::ops::Add for GradientPairInt64 {
    type Output = Self;

    fn add(self, rhs: Self) -> (sum: Self) {
        GradientPairInt64 { grad: self.grad + rhs.grad, hess: self.hess + rhs.hess }
    }
}

impl vstd::std_specs::ops::AddSpecImpl for GradientPairInt64 {
    open spec fn obeys_add_spec() -> bool {
        true
    }

    open spec fn add_req(self, rhs: Self) -> bool {
        &&& i64::MIN <= self.grad + rhs.grad <= i64::MAX
        &&& i64::MIN <= self.hess + rhs.hess <= i64::MAX
    }

    open spec fn add_spec(self, rhs: Self) -> Self {
        GradientPairInt64 { grad: (self.grad + rhs.grad) as i64, hess: (self.hess + rhs.hess) as i64 }
    }
}

impl core::ops::Sub for GradientPairInt64 {
    type Output = Self;

    fn sub(self, rhs: Self) -> (difference: Self) {
        GradientPairInt64 { grad: self.grad - rhs.grad, hess: self.hess - rhs.hess }
    }
}

impl vstd::std_specs::ops::SubSpecImpl for GradientPairInt64 {
    open spec fn obeys_sub_spec() -> bool {
        true
    }

    open spec fn sub_req(self, rhs: Self) -> bool {
        &&& i64::MIN <= self.grad - rhs.grad <= i64::MAX
        &&& i64::MIN <= self.hess - rhs.hess <= i64::MAX
    }

    open spec fn sub_spec(self, rhs: Self) -> Self {
        GradientPairInt64 { grad: (self.grad - rhs.grad) as i64, hess: (self.hess - rhs.hess) as i64 }
    }
}

} // verus!
