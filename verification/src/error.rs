//! What can go wrong.

use vstd::prelude::*;

verus! {

/// Why a request was refused.
#[derive(Clone, Debug, PartialEq, Eq)]
pub enum Error {
    /// A quantised matrix does not hold `n_rows * row_stride` entries.
    MatrixShape { expected: usize, got: usize },
    /// Cut pointers need one entry per feature and one more.
    InvalidCuts { got: usize },
    /// One gradient pair is needed per matrix row.
    GpairCount { expected: usize, got: usize },
    /// Two histograms of different lengths cannot be subtracted.
    HistogramLen { parent: usize, built: usize },
    /// A histogram read back does not hold the bins it was built with.
    HistogramBins { expected: usize, got: usize },
    /// Host data does not have the length its shape asks for.
    DataShape { expected: usize, got: usize },
    /// A column index past the last column.
    FeatureIndex { index: usize, num_col: usize },
    /// A token of LIBSVM text that cannot be read; lines count from 1.
    LibsvmParse { line: usize, token: String },
    /// A parameter has a value that is not acceptable.
    InvalidParameter { name: &'static str, reason: String },
    /// A parameter's text cannot be read.
    ParseParameter { name: &'static str, value: String, reason: String },
    /// The runtime has no double-precision arithmetic.
    NoF64Support,
    /// The runtime has no atomics, and the global-memory histogram is built on them.
    NoGlobalHistogramPath,
    /// The runtime cannot search the rows of a sparse quantised matrix.
    SparseEllpackUnsupported,
    /// The device could not be synchronised.
    Sync(String),
}

impl Error {
    /// The error says that parameter `name` has a value that is not acceptable, and why.
    pub open spec fn refuses(&self, name: Seq<char>, reason: Seq<char>) -> bool {
        self matches Error::InvalidParameter { name: n, reason: r } && n@ == name && r@ == reason
    }

    /// A parameter's value is not acceptable.
    pub fn invalid(name: &'static str, reason: String) -> (error: Self)
        ensures
            error matches Error::InvalidParameter { name: n, reason: r } && n == name && r == reason,
    {
        Error::InvalidParameter { name, reason }
    }

    /// A parameter's text could not be parsed.
    pub fn parse(name: &'static str, value: String, reason: String) -> (error: Self)
        ensures
            error matches Error::ParseParameter { name: n, value: v, reason: r } && n == name && v == value
                && r == reason,
    {
        Error::ParseParameter { name, value, reason }
    }
}

/// A refusal names one parameter and gives one reason.
pub proof fn lemma_refuses(e: Error, name: Seq<char>, reason: Seq<char>, other: Seq<char>, why: Seq<char>)
    requires
        e.refuses(name, reason),
    ensures
        e matches Error::InvalidParameter { name: n, reason: r } && n@ == name && r@ == reason,
        e.refuses(other, why) <==> other == name && why == reason,
{
}

} // verus!
