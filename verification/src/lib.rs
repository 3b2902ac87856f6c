use vstd::prelude::*;

pub mod api;
pub mod bench;
pub mod bits;
pub mod booster;
pub mod context;
pub mod data;
pub mod error;
pub mod fit;
pub mod float_bits;
pub mod gbm;
pub mod gpu;
pub mod learner;
pub mod parameters;
pub mod rng;
pub mod rounds;
pub mod seqs;
pub mod text;
pub mod training;
pub mod tree;

verus! {

} // verus!
