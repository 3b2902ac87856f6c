//! The tree driver: which nodes are split, where their rows and histograms lie.
//!
//! A tree grows batch by batch. [`GpuHistGrower::init_root`] begins a tree, and from then on
//! the caller scores nodes and the grower does the rest: [`TreeGrowth::enqueue`] queues the
//! nodes that were scored, [`TreeGrowth::next_batch`] hands out those to be split,
//! [`GpuHistGrower::expand`] splits them and hands back their children to be scored, and
//! [`TreeGrowth::finish`] tells which rows ended in which leaf.
//!
//! # Histogram lifetime
//!
//! A node's histogram must survive from the moment it is built until its own children are
//! built, because the subtraction trick reads it. Each batch allocates one buffer holding
//! its children's histograms side by side, and the buffer is freed once no queued node
//! refers to it.
//!
//! # What every step keeps
//!
//! The segments of the leaves, of the queued nodes and of the nodes in the caller's hands
//! divide the row index among themselves; the row index holds every row once; and every
//! node's histogram is that of the rows in its segment.

use vstd::prelude::*;

use crate::data::cuts::HistogramCuts;
use crate::data::DMatrix;
use crate::error::Error;
use crate::float_bits::{is_nan_spec, le_spec, lt_spec, same_spec};
use crate::data::gradient_index::{lemma_widest, widest_feature};
use crate::gpu::ellpack::{
    build_ellpack, cell_at, comes_to, lemma_cell_inside, lemma_packed_cells, lemma_row_bin_means, row_bin, DeviceEllpack,
    EllpackLayout, EllpackMatrix,
};
use crate::gpu::engine::{Capabilities, HistogramBuilder, HistogramEngine};
use crate::gpu::evaluate_splits::{constrained, NodeInput, SplitConfig, SplitEvaluatorGpu, DEFAULT_LEFT_BIT};
use crate::gpu::expand::ExpandEntry;
use crate::gpu::histogram::DEFAULT_MAX_BLOCKS_PER_GROUP;
use crate::gpu::launch::has_planes;
use crate::gpu::row_partitioner::{has_row, local_bin, SegmentSplit};
use crate::parameters::MonotoneConstraint;
use crate::tree::param::TrainParam;

verus! {

/// Grows trees.
///
/// Built once per fit: the packed matrix and the cut layout outlive a tree.
pub struct GpuHistGrower {
    /// The histogram engine, which holds the packed matrix.
    pub engine: HistogramEngine,
    pub cuts: HistogramCuts,
    pub param: TrainParam,
    pub n_rows: usize,
    pub n_features: usize,
    pub n_bins: usize,
    /// Outputs a leaf carries: one, unless the trees have vector leaves.
    pub n_targets: usize,
    pub split_eval: SplitEvaluatorGpu,
}

/// The sign of a constraint.
pub open spec fn direction_of(c: MonotoneConstraint) -> int {
    match c {
        MonotoneConstraint::Decreasing => -1,
        MonotoneConstraint::Unconstrained => 0,
        MonotoneConstraint::Increasing => 1,
    }
}

fn directions(constraints: &Vec<MonotoneConstraint>) -> (signs: Vec<i32>)
    ensures
        signs.len() == constraints.len(),
        forall|k: int| 0 <= k < signs.len() ==> #[trigger] signs[k] == direction_of(constraints[k]),
{
    let mut signs: Vec<i32> = Vec::with_capacity(constraints.len());
    let mut k: usize = 0;
    while k < constraints.len()
        invariant
            k <= constraints.len(),
            signs.len() == k,
            forall|j: int| 0 <= j < k ==> #[trigger] signs[j] == direction_of(constraints[j]),
        decreases constraints.len() - k,
    {
        signs.push(
            match constraints[k] {
                MonotoneConstraint::Decreasing => -1,
                MonotoneConstraint::Unconstrained => 0,
                MonotoneConstraint::Increasing => 1,
            },
        );
        k += 1;
    }
    signs
}

/// Every bin is one of its feature's.
pub open spec fn bins_local(ell: &DeviceEllpack) -> bool {
    forall|row: u32, f: int|
        has_row(ell, row) && 0 <= f < ell.row_stride ==> match #[trigger] local_bin(ell, f, row) {
            Some(b) => 0 <= b < ell.cut_ptrs[f + 1] - ell.cut_ptrs[f],
            None => true,
        }
}

proof fn lemma_bins_local(ell: &DeviceEllpack, matrix: &EllpackMatrix)
    requires
        matrix.well_binned(),
        matrix.layout != EllpackLayout::Sparse,
        ell.holds(matrix),
        ell.wf(),
        matrix.fits_in(ell.bits as int),
    ensures
        bins_local(ell),
{
    lemma_packed_cells(ell, matrix);
    assert forall|row: u32, f: int| has_row(ell, row) && 0 <= f < ell.row_stride implies match #[trigger] local_bin(
        ell,
        f,
        row,
    ) {
        Some(b) => 0 <= b < ell.cut_ptrs[f + 1] - ell.cut_ptrs[f],
        None => true,
    } by {
        let r = row - ell.base_rowid;
        assert(ell.stored(r, f) == matrix.stored(r, f));
    }
}

/// A packed matrix has the bins that the rows' values come to.
proof fn lemma_packs(dmat: &DMatrix, cuts: &HistogramCuts, matrix: &EllpackMatrix, ell: &DeviceEllpack)
    requires
        dmat.wf(),
        cuts.wf(),
        dmat.info.num_col == cuts.cut_ptrs.len() - 1,
        dmat.info.num_row <= u32::MAX,
        matrix.is_full(),
        matrix.n_rows == dmat.info.num_row,
        matrix.row_stride == dmat.info.num_col,
        matrix.base_rowid == 0,
        matrix.null_value == widest_feature(cuts, dmat.info.num_col as int),
        matrix.layout == (if matrix.gidx@.contains(matrix.null_value) {
            EllpackLayout::DenseCompressed
        } else {
            EllpackLayout::Dense
        }),
        forall|r: int, f: int|
            0 <= r < dmat.info.num_row && 0 <= f < dmat.info.num_col ==> #[trigger] matrix.stored(r, f) == row_bin(
                dmat,
                cuts,
                matrix.null_value as int,
                f,
                dmat.row_ptr[r] as int,
                dmat.row_ptr[r + 1] as int,
            ),
        ell.holds(matrix),
        ell.wf(),
        matrix.fits_in(ell.bits as int),
    ensures
        forall|r: int, f: int|
            0 <= r < dmat.info.num_row && 0 <= f < dmat.info.num_col ==> comes_to(
                dmat,
                cuts,
                f,
                dmat.row_ptr[r] as int,
                dmat.row_ptr[r + 1] as int,
                #[trigger] local_bin(ell, f, r as u32),
            ),
{
    lemma_packed_cells(ell, matrix);
    assert forall|r: int, f: int| 0 <= r < dmat.info.num_row && 0 <= f < dmat.info.num_col implies comes_to(
        dmat,
        cuts,
        f,
        dmat.row_ptr[r] as int,
        dmat.row_ptr[r + 1] as int,
        #[trigger] local_bin(ell, f, r as u32),
    ) by {
        lemma_widest(cuts, dmat.info.num_col as int, f);
        lemma_row_bin_means(
            dmat,
            cuts,
            matrix.null_value as int,
            f,
            dmat.row_ptr[r] as int,
            dmat.row_ptr[r + 1] as int,
        );
        assert(ell.stored(r, f) == matrix.stored(r, f));
        if matrix.layout == EllpackLayout::Dense && matrix.stored(r, f) == matrix.null_value {
            lemma_cell_inside(matrix.n_rows as int, matrix.row_stride as int, r, f);
            assert(matrix.gidx@[r * matrix.row_stride + f] == matrix.null_value);
        }
    }
}

/// A search holds every feature to the direction of its constraint, and a feature past the last
/// constraint to none.
pub open spec fn held_to(ev: &SplitEvaluatorGpu, constraints: Seq<MonotoneConstraint>) -> bool {
    &&& ev.monotone.len() == ev.n_features
    &&& forall|f: int|
        0 <= f < ev.n_features ==> #[trigger] ev.monotone[f] == (if f < constraints.len() {
            direction_of(constraints[f])
        } else {
            0
        })
    &&& ev.has_constraint == constrained(ev.monotone@)
}

/// A search holds a rising feature upward, a falling one downward and any other not at all, and it
/// knows of a constraint exactly where some feature has one.
pub proof fn lemma_held_to(ev: &SplitEvaluatorGpu, constraints: Seq<MonotoneConstraint>, f: int)
    requires
        held_to(ev, constraints),
        0 <= f < ev.n_features,
    ensures
        f < constraints.len() && constraints[f] is Increasing ==> ev.monotone[f] > 0 && ev.has_constraint,
        f < constraints.len() && constraints[f] is Decreasing ==> ev.monotone[f] < 0 && ev.has_constraint,
        f >= constraints.len() || constraints[f] is Unconstrained ==> ev.monotone[f] == 0,
        (forall|g: int|
            0 <= g < ev.n_features && g < constraints.len() ==> (#[trigger] constraints[g]) is Unconstrained)
            ==> !ev.has_constraint,
{
    assert(ev.monotone@[f] == ev.monotone[f]);
    if f < constraints.len() {
        let c = constraints[f];
        assert(ev.monotone[f] == direction_of(c));
        assert(c is Increasing ==> direction_of(c) == 1);
        assert(c is Decreasing ==> direction_of(c) == -1);
        assert(c is Unconstrained ==> direction_of(c) == 0);
        if ev.monotone@[f] != 0 {
            assert(constrained(ev.monotone@));
        }
    }
    if ev.has_constraint {
        let g = choose|g: int| 0 <= g < ev.monotone.len() && #[trigger] ev.monotone@[g] != 0;
        assert(ev.monotone[g] == ev.monotone@[g]);
        if g < constraints.len() {
            assert(!(constraints[g] is Unconstrained));
        }
    }
}

/// Two searches that are held to the same constraints hold every feature alike, and two that hold
/// every feature alike were given the same for each that both have.
pub proof fn lemma_held_alike(
    a: &SplitEvaluatorGpu,
    b: &SplitEvaluatorGpu,
    first: Seq<MonotoneConstraint>,
    second: Seq<MonotoneConstraint>,
)
    requires
        held_to(a, first),
        held_to(b, second),
        a.n_features == b.n_features,
        first.len() == a.n_features,
        second.len() == b.n_features,
    ensures
        a.monotone@ == b.monotone@ <==> first == second,
{
    if first == second {
        assert(a.monotone@ =~= b.monotone@);
    }
    if a.monotone@ == b.monotone@ {
        assert forall|f: int| 0 <= f < first.len() implies first[f] == second[f] by {
            assert(a.monotone[f] == a.monotone@[f] && b.monotone[f] == b.monotone@[f]);
            assert(0 <= f < a.n_features && 0 <= f < b.n_features);
            assert(a.monotone[f] == direction_of(first[f]));
            assert(b.monotone[f] == direction_of(second[f]));
            assert(a.monotone@[f] == b.monotone@[f]);
            lemma_directions(first[f], second[f]);
        }
        assert(first =~= second);
    }
}

/// The evaluator holds every feature to the constraint that was given for it.
proof fn lemma_constraints_kept(ev: &SplitEvaluatorGpu, constraints: Seq<MonotoneConstraint>)
    requires
        ev.monotone.len() == ev.n_features,
        ev.cfg.monotone.len() == constraints.len(),
        forall|k: int| 0 <= k < constraints.len() ==> #[trigger] ev.cfg.monotone[k] == direction_of(constraints[k]),
        forall|f: int|
            0 <= f < ev.n_features ==> #[trigger] ev.monotone[f] == (if f < ev.cfg.monotone.len() {
                ev.cfg.monotone[f]
            } else {
                0
            }),
        ev.has_constraint == constrained(ev.monotone@),
    ensures
        held_to(ev, constraints),
        forall|f: int|
            0 <= f < ev.n_features ==> {
                &&& (#[trigger] ev.monotone[f] > 0 <==> f < constraints.len() && constraints[f]
                    == MonotoneConstraint::Increasing)
                &&& (ev.monotone[f] < 0 <==> f < constraints.len() && constraints[f] == MonotoneConstraint::Decreasing)
            },
        ev.has_constraint <==> exists|f: int|
            0 <= f < ev.n_features && f < constraints.len() && #[trigger] constraints[f]
                != MonotoneConstraint::Unconstrained,
{
    assert forall|f: int| 0 <= f < ev.n_features implies {
        &&& (#[trigger] ev.monotone[f] > 0 <==> f < constraints.len() && constraints[f]
            == MonotoneConstraint::Increasing)
        &&& (ev.monotone[f] < 0 <==> f < constraints.len() && constraints[f] == MonotoneConstraint::Decreasing)
    } by {
        if f < constraints.len() {
            assert(ev.cfg.monotone[f] == direction_of(constraints[f]));
        }
    }
    if ev.has_constraint {
        let f = choose|f: int| 0 <= f < ev.monotone.len() && #[trigger] ev.monotone@[f] != 0;
        assert(ev.monotone[f] == ev.monotone@[f]);
        assert(constraints[f] != MonotoneConstraint::Unconstrained);
    }
    if exists|f: int|
        0 <= f < ev.n_features && f < constraints.len() && #[trigger] constraints[f] != MonotoneConstraint::Unconstrained {
        let f = choose|f: int|
            0 <= f < ev.n_features && f < constraints.len() && #[trigger] constraints[f]
                != MonotoneConstraint::Unconstrained;
        assert(ev.monotone[f] != 0);
        assert(ev.monotone@[f] != 0);
    }
}

/// A constraint and its opposite pull opposite ways, and the lack of one neither.
pub proof fn lemma_directions(a: MonotoneConstraint, b: MonotoneConstraint)
    ensures
        direction_of(a) > 0 <==> a is Increasing,
        direction_of(a) < 0 <==> a is Decreasing,
        direction_of(a) == 0 <==> a is Unconstrained,
        direction_of(a) == direction_of(b) <==> a == b,
        direction_of(MonotoneConstraint::Increasing) == -direction_of(MonotoneConstraint::Decreasing),
{
}

/// A split search over well-formed cuts is itself well formed, as long as a feature index
/// leaves a bit for a flag.
proof fn lemma_search_wf(ev: &SplitEvaluatorGpu, cuts: &HistogramCuts)
    requires
        cuts.wf(),
        cuts.cut_ptrs.len() >= 2,
        ev.cut_ptrs@ == cuts.cut_ptrs@,
        ev.cut_values@ == cuts.cut_values@,
        ev.min_values@ == cuts.min_values@,
        ev.n_features == cuts.cut_ptrs.len() - 1,
        ev.n_bins == cuts.cut_values.len(),
        ev.monotone.len() == ev.n_features,
    ensures
        cuts.cut_values.len() < DEFAULT_LEFT_BIT ==> ev.wf(),
{
    let last = cuts.cut_ptrs.len() - 1;
    lemma_ptrs_spread(cuts, last);
    assert forall|f: int| 0 <= f < ev.n_features implies #[trigger] ev.cut_ptrs[f] <= ev.cut_ptrs[f + 1]
        && ev.cut_ptrs[f + 1] <= ev.n_bins by {
        assert(ev.cut_ptrs[f] == cuts.cut_ptrs[f]);
        assert(cuts.cut_ptrs[f] < cuts.cut_ptrs[f + 1]);
        if f + 1 < last {
            assert(cuts.cut_ptrs[f + 1] < cuts.cut_ptrs[last]);
        }
    }
}

/// Every feature has a bin, so the pointers grow by one at least.
proof fn lemma_ptrs_spread(cuts: &HistogramCuts, f: int)
    requires
        cuts.wf(),
        0 <= f < cuts.cut_ptrs.len(),
    ensures
        f <= cuts.cut_ptrs[f],
    decreases f,
{
    if f > 0 {
        lemma_ptrs_spread(cuts, f - 1);
        assert(cuts.cut_ptrs[f - 1] < cuts.cut_ptrs[f]);
    }
}

impl GpuHistGrower {
    /// The matrix, the cuts and the engine belong together.
    pub open spec fn wf(&self) -> bool {
        &&& self.engine.wf()
        &&& self.engine.max_blocks_per_group >= 1
        &&& self.engine.n_bins == self.n_bins
        &&& self.engine.ell.base_rowid == 0
        &&& self.engine.ell.n_rows == self.n_rows
        &&& self.engine.ell.compressed
        &&& self.engine.ell.row_stride == self.n_features
        &&& self.engine.ell.cut_ptrs@ == self.cuts.cut_ptrs@
        &&& bins_local(&self.engine.ell)
        &&& self.cuts.wf()
        &&& self.cuts.cut_ptrs.len() == self.n_features + 1
        &&& self.cuts.cut_values.len() == self.n_bins
        &&& self.n_targets >= 1
        &&& self.n_features >= 1
        &&& self.n_rows <= u32::MAX
    }

    /// The split search works on the grower's cuts.
    pub open spec fn searches(&self) -> bool {
        &&& self.split_eval.wf()
        &&& self.split_eval.n_features == self.n_features
        &&& self.split_eval.n_bins == self.n_bins
        &&& self.split_eval.cut_ptrs@ == self.cuts.cut_ptrs@
        &&& self.split_eval.cut_values@ == self.cuts.cut_values@
        &&& self.split_eval.min_values@ == self.cuts.min_values@
    }

    /// Bin `dmat` with `cuts` and pack everything that outlives a tree.
    pub fn new(capabilities: Capabilities, dmat: &DMatrix, cuts: HistogramCuts, param: TrainParam) -> (result: Result<
        Self,
        Error,
    >)
        requires
            dmat.wf(),
            cuts.wf(),
            0 < dmat.info.num_col == cuts.cut_ptrs.len() - 1,
            dmat.info.num_row * dmat.info.num_col <= u32::MAX,
            dmat.info.num_row * dmat.info.num_col <= usize::MAX - 64,
            dmat.info.num_row <= u32::MAX,
            dmat.info.num_col < u32::MAX,
            capabilities.hardware.plane_size_max < 0x8000_0000,
        ensures
            result is Ok <==> capabilities.float64,
            result matches Err(e) ==> e == Error::NoF64Support,
            result matches Ok(g) ==> {
                &&& g.wf()
                &&& g.cuts == cuts
                &&& g.param == param
                &&& g.n_rows == dmat.info.num_row
                &&& g.n_features == dmat.info.num_col
                &&& g.n_bins == cuts.cut_values.len()
                &&& g.n_targets == 1
                &&& g.split_eval.cfg.lambda == param.reg_lambda
                &&& g.split_eval.cfg.alpha == param.reg_alpha
                &&& g.split_eval.cfg.max_delta_step == param.max_delta_step
                &&& g.split_eval.cfg.min_child_weight == param.min_child_weight
                &&& held_to(&g.split_eval, param.monotone_constraints@)
                &&& g.split_eval.n_features == g.n_features
                &&& g.split_eval.monotone.len() == g.n_features
                &&& forall|f: int|
                    0 <= f < g.n_features ==> {
                        let rises = f < param.monotone_constraints.len() && param.monotone_constraints[f]
                            == MonotoneConstraint::Increasing;
                        let falls = f < param.monotone_constraints.len() && param.monotone_constraints[f]
                            == MonotoneConstraint::Decreasing;
                        &&& (#[trigger] g.split_eval.monotone[f] > 0 <==> rises)
                        &&& (g.split_eval.monotone[f] < 0 <==> falls)
                    }
                &&& g.split_eval.has_constraint <==> exists|f: int|
                    0 <= f < g.n_features && f < param.monotone_constraints.len() && #[trigger] param.monotone_constraints[f]
                        != MonotoneConstraint::Unconstrained
                &&& forall|r: int, f: int|
                    0 <= r < g.n_rows && 0 <= f < g.n_features ==> comes_to(
                        dmat,
                        &cuts,
                        f,
                        dmat.row_ptr[r] as int,
                        dmat.row_ptr[r + 1] as int,
                        #[trigger] local_bin(&g.engine.ell, f, r as u32),
                    )
                &&& g.split_eval.cut_ptrs@ == cuts.cut_ptrs@
                &&& g.split_eval.cut_values@ == cuts.cut_values@
                &&& g.split_eval.min_values@ == cuts.min_values@
                &&& g.split_eval.cfg.monotone.len() == param.monotone_constraints.len()
                &&& forall|f: int|
                    0 <= f < param.monotone_constraints.len() ==> {
                        &&& (#[trigger] g.split_eval.cfg.monotone[f] > 0 <==> param.monotone_constraints[f]
                            == MonotoneConstraint::Increasing)
                        &&& (g.split_eval.cfg.monotone[f] < 0 <==> param.monotone_constraints[f]
                            == MonotoneConstraint::Decreasing)
                    }
                &&& g.engine.hardware == capabilities.hardware
                &&& g.engine.native_i64 == capabilities.atomic_add_i64
                &&& g.engine.atomic_free == !capabilities.atomic_add_u32
                &&& g.engine.max_blocks_per_group == DEFAULT_MAX_BLOCKS_PER_GROUP
                &&& cuts.cut_values.len() < DEFAULT_LEFT_BIT ==> g.searches()
            },
    {
        Self::new_multi(capabilities, dmat, cuts, param, 1)
    }

    /// A grower for vector-leaf trees: one tree covering `n_targets` outputs.
    ///
    /// Categorical features are refused rather than mis-fitted: the vector-leaf search scans
    /// a feature's bins in ascending order, which is meaningless for category codes.
    pub fn new_multi(
        capabilities: Capabilities,
        dmat: &DMatrix,
        cuts: HistogramCuts,
        param: TrainParam,
        n_targets: usize,
    ) -> (result: Result<Self, Error>)
        requires
            dmat.wf(),
            cuts.wf(),
            0 < dmat.info.num_col == cuts.cut_ptrs.len() - 1,
            dmat.info.num_row * dmat.info.num_col <= u32::MAX,
            dmat.info.num_row * dmat.info.num_col <= usize::MAX - 64,
            dmat.info.num_row <= u32::MAX,
            dmat.info.num_col < u32::MAX,
            capabilities.hardware.plane_size_max < 0x8000_0000,
        ensures
            n_targets > 1 && cuts.any_categorical() ==> result is Err && result->Err_0.refuses(
                "multi_strategy"@,
                "`multi_output_tree` has no categorical split; one-hot encode the categories, or use `one_output_per_tree`"@,
            ),
            !(n_targets > 1 && cuts.any_categorical()) && !capabilities.float64 ==> result == Err::<Self, Error>(
                Error::NoF64Support,
            ),
            !(n_targets > 1 && cuts.any_categorical()) && capabilities.float64 ==> result is Ok,
            result matches Ok(g) ==> {
                &&& g.wf()
                &&& g.cuts == cuts
                &&& g.param == param
                &&& g.n_rows == dmat.info.num_row
                &&& g.n_features == dmat.info.num_col
                &&& g.n_bins == cuts.cut_values.len()
                &&& g.n_targets == (if n_targets == 0 {
                    1
                } else {
                    n_targets
                })
                &&& g.split_eval.cfg.lambda == param.reg_lambda
                &&& g.split_eval.cfg.alpha == param.reg_alpha
                &&& g.split_eval.cfg.max_delta_step == param.max_delta_step
                &&& g.split_eval.cfg.min_child_weight == param.min_child_weight
                &&& held_to(&g.split_eval, param.monotone_constraints@)
                &&& g.split_eval.n_features == g.n_features
                &&& g.split_eval.monotone.len() == g.n_features
                &&& forall|f: int|
                    0 <= f < g.n_features ==> {
                        let rises = f < param.monotone_constraints.len() && param.monotone_constraints[f]
                            == MonotoneConstraint::Increasing;
                        let falls = f < param.monotone_constraints.len() && param.monotone_constraints[f]
                            == MonotoneConstraint::Decreasing;
                        &&& (#[trigger] g.split_eval.monotone[f] > 0 <==> rises)
                        &&& (g.split_eval.monotone[f] < 0 <==> falls)
                    }
                &&& g.split_eval.has_constraint <==> exists|f: int|
                    0 <= f < g.n_features && f < param.monotone_constraints.len() && #[trigger] param.monotone_constraints[f]
                        != MonotoneConstraint::Unconstrained
                &&& forall|r: int, f: int|
                    0 <= r < g.n_rows && 0 <= f < g.n_features ==> comes_to(
                        dmat,
                        &cuts,
                        f,
                        dmat.row_ptr[r] as int,
                        dmat.row_ptr[r + 1] as int,
                        #[trigger] local_bin(&g.engine.ell, f, r as u32),
                    )
                &&& g.split_eval.cut_ptrs@ == cuts.cut_ptrs@
                &&& g.split_eval.cut_values@ == cuts.cut_values@
                &&& g.split_eval.min_values@ == cuts.min_values@
                &&& g.split_eval.cfg.monotone.len() == param.monotone_constraints.len()
                &&& forall|f: int|
                    0 <= f < param.monotone_constraints.len() ==> {
                        &&& (#[trigger] g.split_eval.cfg.monotone[f] > 0 <==> param.monotone_constraints[f]
                            == MonotoneConstraint::Increasing)
                        &&& (g.split_eval.cfg.monotone[f] < 0 <==> param.monotone_constraints[f]
                            == MonotoneConstraint::Decreasing)
                    }
                &&& g.engine.hardware == capabilities.hardware
                &&& g.engine.native_i64 == capabilities.atomic_add_i64
                &&& g.engine.atomic_free == !capabilities.atomic_add_u32
                &&& g.engine.max_blocks_per_group == DEFAULT_MAX_BLOCKS_PER_GROUP
                &&& cuts.cut_values.len() < DEFAULT_LEFT_BIT ==> g.searches()
            },
    {
        let n_targets: usize = if n_targets == 0 {
            1
        } else {
            n_targets
        };
        if n_targets > 1 && cuts.has_categorical() {
            return Err(
                Error::invalid(
                    "multi_strategy",
                    "`multi_output_tree` has no categorical split; one-hot encode the categories, or use `one_output_per_tree`".to_owned(),
                ),
            );
        }
        let matrix: EllpackMatrix = build_ellpack(dmat, &cuts);
        let ell: DeviceEllpack = DeviceEllpack::upload(has_planes(&capabilities.hardware), &matrix);
        let ghost packed = ell;
        proof {
            lemma_bins_local(&ell, &matrix);
            lemma_packs(dmat, &cuts, &matrix, &ell);
        }
        let engine: HistogramEngine = match HistogramBuilder::new(capabilities).build_shared(&matrix, ell) {
            Ok(engine) => engine,
            Err(e) => return Err(e),
        };
        let cfg = SplitConfig {
            lambda: param.reg_lambda,
            alpha: param.reg_alpha,
            max_delta_step: param.max_delta_step,
            min_child_weight: param.min_child_weight,
            monotone: directions(&param.monotone_constraints),
        };
        let split_eval: SplitEvaluatorGpu = match SplitEvaluatorGpu::new(
            capabilities.float64,
            cuts.cut_ptrs.as_slice(),
            cuts.cut_values.as_slice(),
            cuts.min_values.as_slice(),
            cfg,
        ) {
            Ok(split_eval) => split_eval,
            Err(e) => return Err(e),
        };
        proof {
            lemma_search_wf(&split_eval, &cuts);
            lemma_constraints_kept(&split_eval, param.monotone_constraints@);
            assert(engine.ell == packed);
        }
        Ok(
            GpuHistGrower {
                engine,
                n_rows: dmat.num_row(),
                n_features: dmat.num_col(),
                n_bins: cuts.total_bins(),
                n_targets,
                split_eval,
                cuts,
                param,
            },
        )
    }

    /// Whether this grower produces vector leaves.
    pub fn is_multi(&self) -> (yes: bool)
        ensures
            yes == (self.n_targets > 1),
    {
        self.n_targets > 1
    }

    /// Bins in a frontier of `slots` nodes: a node holds one histogram per target, laid out
    /// side by side from its own slot.
    pub open spec fn frontier_len(&self, slots: int) -> int {
        slots * self.n_targets * self.n_bins
    }

    /// Both children of a split of `parent` may be split in their turn.
    pub open spec fn children_expand(&self, parent: &ExpandEntry, num_leaves: int) -> bool {
        &&& !(self.param.max_depth > 0 && parent.depth + 1 >= self.param.max_depth)
        &&& !(self.param.max_leaves > 0 && num_leaves >= self.param.max_leaves)
    }

    pub fn child_can_expand(&self, parent: &ExpandEntry, num_leaves: i32) -> (yes: bool)
        requires
            parent.depth < i32::MAX,
        ensures
            yes == self.children_expand(parent, num_leaves as int),
    {
        if self.param.max_depth > 0 && parent.depth + 1 >= self.param.max_depth {
            return false;
        }
        if self.param.max_leaves > 0 && num_leaves >= self.param.max_leaves {
            return false;
        }
        true
    }

    /// The split of `entry` names a feature of the matrix, and a set that covers its
    /// categories.
    pub open spec fn splittable(&self, entry: &ExpandEntry) -> bool {
        let f = entry.split.feature() as int;
        &&& f < self.n_features
        &&& entry.split.is_cat && entry.cat_bits.len() > 0 ==> self.cuts.width(f) <= 32 * entry.cat_bits.len()
    }

    /// What the partitioner is told of the split of `entry`: a threshold counts up to the
    /// first bin whose cut equals it, and below every bin where none does.
    pub open spec fn splits_as(&self, entry: &ExpandEntry, sp: &SegmentSplit) -> bool {
        let f = entry.split.feature() as int;
        &&& sp.begin == entry.seg_begin
        &&& sp.len == entry.seg_len
        &&& sp.fidx == f
        &&& sp.default_left == entry.split.missing_left()
        &&& if entry.split.is_cat {
            sp.cond == -1 && sp.cat_bits@ == entry.cat_bits@
        } else {
            &&& sp.cat_bits.len() == 0
            &&& sp.cond == -1 <==> forall|b: int|
                self.cuts.cut_ptrs[f] <= b < self.cuts.cut_ptrs[f + 1] ==> !same_spec(
                    entry.split.split_value,
                    #[trigger] self.cuts.cut_values[b],
                )
            &&& sp.cond != -1 ==> 0 <= sp.cond < self.cuts.width(f) && same_spec(
                entry.split.split_value,
                self.cuts.cut_values[self.cuts.cut_ptrs[f] + sp.cond],
            ) && forall|b: int|
                self.cuts.cut_ptrs[f] <= b < self.cuts.cut_ptrs[f] + sp.cond ==> !same_spec(
                    entry.split.split_value,
                    #[trigger] self.cuts.cut_values[b],
                )
        }
    }

    /// The partitioner's view of one split.
    #[verifier::rlimit(30)]
    pub fn segment_split(&self, entry: &ExpandEntry) -> (sp: SegmentSplit)
        requires
            self.wf(),
            self.splittable(entry),
        ensures
            self.splits_as(entry, &sp),
            sp.applies(&self.engine.ell),
            sp.begin == entry.seg_begin && sp.len == entry.seg_len,
            sp.fidx == entry.split.feature(),
            sp.default_left == entry.split.missing_left(),
            entry.split.is_cat ==> sp.cat_bits@ == entry.cat_bits@,
            !entry.split.is_cat ==> sp.cat_bits.len() == 0,
    {
        let fidx: u32 = entry.split.split_index();
        // A categorical split ignores the threshold: the partitioner tests the set instead.
        let cond: i64 = if entry.split.is_cat {
            -1
        } else {
            let global: i64 = self.cuts.find_split_condition(fidx as usize, entry.split.split_value);
            // No matching cut stays negative, so every present row goes right and only the
            // missing ones follow the default direction.
            if global < 0 {
                -1
            } else {
                global - self.cuts.cut_ptrs[fidx as usize] as i64
            }
        };
        let cat_bits: Vec<u32> = if entry.split.is_cat {
            entry.cat_bits.clone()
        } else {
            Vec::new()
        };
        assert(entry.split.is_cat ==> cat_bits@ =~= entry.cat_bits@);
        SegmentSplit {
            begin: entry.seg_begin,
            len: entry.seg_len,
            fidx,
            cond,
            default_left: entry.split.default_left(),
            cat_bits,
        }
    }
}

/// Of the first `n` features, the categorical ones.
pub open spec fn categorical_of(cuts: &HistogramCuts, features: Seq<u32>, n: int) -> Seq<u32>
    decreases n,
{
    if n <= 0 {
        Seq::empty()
    } else {
        let rest = categorical_of(cuts, features, n - 1);
        if cuts.categorical(features[n - 1] as int) {
            rest.push(features[n - 1])
        } else {
            rest
        }
    }
}

/// Feature `f` is a numeric one among the first `n` features.
pub open spec fn numeric_among(cuts: &HistogramCuts, features: Seq<u32>, f: int, n: int) -> bool {
    !cuts.categorical(f) && exists|k: int| 0 <= k < n && #[trigger] features[k] == f
}

impl GpuHistGrower {
    /// Which features each node may split on: a mask of the numeric ones, one row per node,
    /// and a list of the categorical ones.
    ///
    /// A categorical feature is left out of the mask, because scanning its bins in ascending
    /// order is meaningless; it is scored apart.
    pub fn feature_mask(&self, allowed: &[Vec<u32>]) -> (result: (Vec<u32>, Vec<Vec<u32>>))
        requires
            allowed.len() * self.n_features <= usize::MAX,
            forall|i: int, k: int|
                0 <= i < allowed.len() && 0 <= k < allowed[i].len() ==> #[trigger] allowed[i][k] < self.n_features,
        ensures
            result.0.len() == allowed.len() * self.n_features,
            forall|i: int, f: int|
                0 <= i < allowed.len() && 0 <= f < self.n_features ==> #[trigger] result.0[cell_at(
                    self.n_features as int,
                    i,
                    f,
                )] == (if numeric_among(&self.cuts, allowed[i]@, f, allowed[i].len() as int) {
                    1u32
                } else {
                    0u32
                }),
            result.1.len() == allowed.len(),
            forall|i: int|
                0 <= i < allowed.len() ==> (#[trigger] result.1[i])@ == categorical_of(
                    &self.cuts,
                    allowed[i]@,
                    allowed[i].len() as int,
                ),
    {
        let ghost nf = self.n_features as int;
        let mut mask: Vec<u32> = Vec::new();
        let mut cats: Vec<Vec<u32>> = Vec::with_capacity(allowed.len());
        let mut i: usize = 0;
        while i < allowed.len()
            invariant
                nf == self.n_features,
                allowed.len() * self.n_features <= usize::MAX,
                forall|i: int, k: int|
                    0 <= i < allowed.len() && 0 <= k < allowed[i].len() ==> #[trigger] allowed[i][k] < self.n_features,
                i <= allowed.len(),
                mask.len() == i * self.n_features,
                forall|j: int, f: int|
                    0 <= j < i && 0 <= f < nf ==> #[trigger] mask[cell_at(nf, j, f)] == (if numeric_among(
                        &self.cuts,
                        allowed[j]@,
                        f,
                        allowed[j].len() as int,
                    ) {
                        1u32
                    } else {
                        0u32
                    }),
                cats.len() == i,
                forall|j: int|
                    0 <= j < i ==> (#[trigger] cats[j])@ == categorical_of(
                        &self.cuts,
                        allowed[j]@,
                        allowed[j].len() as int,
                    ),
            decreases allowed.len() - i,
        {
            let features: &Vec<u32> = &allowed[i];
            let ghost was = mask@;
            let mut row: Vec<u32> = vec![0u32; self.n_features];
            let mut list: Vec<u32> = Vec::new();
            let mut k: usize = 0;
            while k < features.len()
                invariant
                    nf == self.n_features,
                    forall|k: int| 0 <= k < features.len() ==> #[trigger] features[k] < self.n_features,
                    k <= features.len(),
                    row.len() == nf,
                    forall|f: int|
                        0 <= f < nf ==> #[trigger] row[f] == (if numeric_among(&self.cuts, features@, f, k as int) {
                            1u32
                        } else {
                            0u32
                        }),
                    list@ == categorical_of(&self.cuts, features@, k as int),
                decreases features.len() - k,
            {
                let f: u32 = features[k];
                if self.cuts.is_cat(f as usize) {
                    list.push(f);
                } else {
                    row.set(f as usize, 1);
                }
                proof {
                    assert forall|g: int| 0 <= g < nf implies #[trigger] row[g] == (if numeric_among(
                        &self.cuts,
                        features@,
                        g,
                        k + 1,
                    ) {
                        1u32
                    } else {
                        0u32
                    }) by {
                        assert(features[k as int] == f);
                        assert(numeric_among(&self.cuts, features@, g, k + 1) == (numeric_among(
                            &self.cuts,
                            features@,
                            g,
                            k as int,
                        ) || (g == f && !self.cuts.categorical(g))));
                    }
                }
                k += 1;
            }
            mask.extend_from_slice(row.as_slice());
            cats.push(list);
            proof {
                assert(mask@ =~= was + row@);
                assert((i + 1) * nf == i * nf + nf) by (nonlinear_arith);
                assert forall|j: int, f: int| 0 <= j < i + 1 && 0 <= f < nf implies #[trigger] mask[cell_at(nf, j, f)]
                    == (if numeric_among(&self.cuts, allowed[j]@, f, allowed[j].len() as int) {
                    1u32
                } else {
                    0u32
                }) by {
                    if j < i {
                        lemma_cell_inside(i as int, nf, j, f);
                        assert(was[cell_at(nf, j, f)] == (if numeric_among(
                            &self.cuts,
                            allowed[j]@,
                            f,
                            allowed[j].len() as int,
                        ) {
                            1u32
                        } else {
                            0u32
                        }));
                    }
                }
            }
            i += 1;
        }
        (mask, cats)
    }

    /// The nodes as the split search needs them: their histograms' places, their sums, and
    /// their weight boxes.
    pub fn node_inputs(nodes: &[ExpandEntry], bounds: &[(u32, u32)]) -> (inputs: Vec<NodeInput>)
        requires
            bounds.len() == nodes.len(),
        ensures
            inputs.len() == nodes.len(),
            forall|i: int|
                0 <= i < nodes.len() ==> #[trigger] inputs[i] == (NodeInput {
                    hist_base: nodes[i].slot,
                    parent_grad: nodes[i].sum.grad,
                    parent_hess: nodes[i].sum.hess,
                    root_gain: nodes[i].root_gain,
                    lower: bounds[i].0,
                    upper: bounds[i].1,
                }),
    {
        let mut inputs: Vec<NodeInput> = Vec::with_capacity(nodes.len());
        let mut i: usize = 0;
        while i < nodes.len()
            invariant
                bounds.len() == nodes.len(),
                i <= nodes.len(),
                inputs.len() == i,
                forall|j: int|
                    0 <= j < i ==> #[trigger] inputs[j] == (NodeInput {
                        hist_base: nodes[j].slot,
                        parent_grad: nodes[j].sum.grad,
                        parent_hess: nodes[j].sum.hess,
                        root_gain: nodes[j].root_gain,
                        lower: bounds[j].0,
                        upper: bounds[j].1,
                    }),
            decreases nodes.len() - i,
        {
            let (lower, upper) = bounds[i];
            inputs.push(
                NodeInput {
                    hist_base: nodes[i].slot,
                    parent_grad: nodes[i].sum.grad,
                    parent_hess: nodes[i].sum.hess,
                    root_gain: nodes[i].root_gain,
                    lower,
                    upper,
                },
            );
            i += 1;
        }
        inputs
    }
}

/// A node's children may be split while they stand above the depth limit and the tree has fewer
/// leaves than it may have; a limit of zero is none. Fewer leaves and a shallower node never stop
/// them.
pub proof fn lemma_children_limits(grower: &GpuHistGrower, parent: &ExpandEntry, other: &ExpandEntry, leaves: int, fewer: int)
    requires
        fewer <= leaves,
        other.depth <= parent.depth,
    ensures
        grower.children_expand(parent, leaves) && grower.param.max_depth > 0 ==> parent.depth + 1
            < grower.param.max_depth,
        grower.children_expand(parent, leaves) && grower.param.max_leaves > 0 ==> leaves < grower.param.max_leaves,
        grower.param.max_depth <= 0 && grower.param.max_leaves <= 0 ==> grower.children_expand(parent, leaves),
        parent.depth + 1 < grower.param.max_depth && leaves < grower.param.max_leaves ==> grower.children_expand(
            parent,
            leaves,
        ),
        grower.children_expand(parent, leaves) ==> grower.children_expand(other, fewer),
{
}

/// Two splits of the row index that are told of one split of a node agree in all they decide by.
pub proof fn lemma_one_segment_split(grower: &GpuHistGrower, entry: &ExpandEntry, a: &SegmentSplit, b: &SegmentSplit)
    requires
        grower.splits_as(entry, a),
        grower.splits_as(entry, b),
    ensures
        a.begin == b.begin && a.len == b.len && a.fidx == b.fidx && a.default_left == b.default_left && a.cond == b.cond,
        a.cat_bits@ == b.cat_bits@,
{
    let f = entry.split.feature() as int;
    let first = grower.cuts.cut_ptrs[f] as int;
    if !entry.split.is_cat {
        assert(a.cat_bits@ =~= b.cat_bits@);
        if a.cond == -1 || b.cond == -1 {
            if a.cond != -1 {
                assert(!same_spec(entry.split.split_value, grower.cuts.cut_values[first + a.cond]));
            }
            if b.cond != -1 {
                assert(!same_spec(entry.split.split_value, grower.cuts.cut_values[first + b.cond]));
            }
        } else if a.cond < b.cond {
            assert(!same_spec(entry.split.split_value, grower.cuts.cut_values[first + a.cond]));
        } else if b.cond < a.cond {
            assert(!same_spec(entry.split.split_value, grower.cuts.cut_values[first + b.cond]));
        }
    }
}

/// On a threshold that is one of its feature's cuts, and cuts that ascend, a row goes left exactly
/// where the cut that closes its bin is not above the threshold.
pub proof fn lemma_threshold_parts(
    grower: &GpuHistGrower,
    entry: &ExpandEntry,
    sp: &SegmentSplit,
    row: u32,
    at: int,
)
    requires
        grower.wf(),
        grower.splittable(entry),
        grower.splits_as(entry, sp),
        !entry.split.is_cat,
        has_row(&grower.engine.ell, row),
        ({
            let f = entry.split.feature() as int;
            let first = grower.cuts.cut_ptrs[f] as int;
            &&& first <= at < grower.cuts.cut_ptrs[f + 1]
            &&& grower.cuts.cut_values[at] == entry.split.split_value
            &&& forall|a: int, b: int|
                first <= a < b < grower.cuts.cut_ptrs[f + 1] ==> lt_spec(
                    #[trigger] grower.cuts.cut_values[a],
                    #[trigger] grower.cuts.cut_values[b],
                )
            &&& !is_nan_spec(entry.split.split_value)
        }),
    ensures
        match local_bin(&grower.engine.ell, entry.split.feature() as int, row) {
            None => sp.sends_left(&grower.engine.ell, row) == entry.split.missing_left(),
            Some(b) => sp.sends_left(&grower.engine.ell, row) <==> le_spec(
                grower.cuts.cut_values[grower.cuts.cut_ptrs[entry.split.feature() as int] + b],
                entry.split.split_value,
            ),
        },
{
    let f = entry.split.feature() as int;
    let first = grower.cuts.cut_ptrs[f] as int;
    let x = entry.split.split_value;
    assert(same_spec(x, grower.cuts.cut_values[at]));
    assert(sp.cond != -1);
    let c = first + sp.cond;
    if c != at {
        if c < at {
            assert(lt_spec(grower.cuts.cut_values[c], grower.cuts.cut_values[at]));
        } else {
            assert(lt_spec(grower.cuts.cut_values[at], grower.cuts.cut_values[c]));
        }
    }
    if let Some(b) = local_bin(&grower.engine.ell, f, row) {
        assert(0 <= b < grower.engine.ell.cut_ptrs[f + 1] - grower.engine.ell.cut_ptrs[f]);
        if first + b < at {
            assert(lt_spec(grower.cuts.cut_values[first + b], grower.cuts.cut_values[at]));
        } else if at < first + b {
            assert(lt_spec(grower.cuts.cut_values[at], grower.cuts.cut_values[first + b]));
        }
    }
}

/// Of the features that a node may split on, each is searched as a number or as a category and none
/// as both; a feature that it may not split on is searched as neither.
pub proof fn lemma_features_searched(cuts: &HistogramCuts, features: Seq<u32>, f: u32)
    ensures
        numeric_among(cuts, features, f as int, features.len() as int) <==> features.contains(f) && !cuts.categorical(
            f as int,
        ),
        categorical_of(cuts, features, features.len() as int).contains(f) <==> features.contains(f)
            && cuts.categorical(f as int),
{
    lemma_categorical_upto(cuts, features, f, features.len() as int);
    if features.contains(f) {
        let k = choose|k: int| 0 <= k < features.len() && features[k] == f;
        assert(features[k] == f);
    }
}

proof fn lemma_categorical_upto(cuts: &HistogramCuts, features: Seq<u32>, f: u32, n: int)
    requires
        0 <= n <= features.len(),
    ensures
        categorical_of(cuts, features, n).contains(f) <==> cuts.categorical(f as int) && exists|k: int|
            0 <= k < n && #[trigger] features[k] == f,
    decreases n,
{
    if n > 0 {
        lemma_categorical_upto(cuts, features, f, n - 1);
        let rest = categorical_of(cuts, features, n - 1);
        let all = categorical_of(cuts, features, n);
        if all.contains(f) {
            let k = choose|k: int| 0 <= k < all.len() && all[k] == f;
            if k < rest.len() {
                assert(rest[k] == f);
                assert(rest.contains(f));
                let j = choose|j: int| 0 <= j < n - 1 && #[trigger] features[j] == f;
                assert(features[j] == f);
            } else {
                assert(features[n - 1] == f);
            }
        }
        if cuts.categorical(f as int) && exists|k: int| 0 <= k < n && #[trigger] features[k] == f {
            let k = choose|k: int| 0 <= k < n && #[trigger] features[k] == f;
            if k < n - 1 {
                assert(rest.contains(f));
                let j = choose|j: int| 0 <= j < rest.len() && rest[j] == f;
                assert(all[j] == f);
            } else {
                assert(all[rest.len() as int] == f);
            }
        }
    }
}

} // verus!
