//! The histogram engine: configuration, dispatch, and the subtraction trick.
//!
//! [`HistogramBuilder`] validates the matrix, decides between the shared-memory and the
//! global-memory path and packs the matrix; the resulting [`HistogramEngine`] then builds
//! any number of node histograms against it.

use vstd::prelude::*;

use crate::error::Error;
use crate::gpu::ellpack::{lemma_packed_cells, DeviceEllpack, EllpackLayout, EllpackMatrix};
use crate::gpu::hist_grid::{
    feature_stride, group_bins, group_start, groups_hold, groups_tile, hist_kernel, join_words, joined, FeatureGroup,
};
use crate::gpu::histogram::{
    apart, bins_below, build_into_batch, build_private_batch, chunks_of, global_bin, histogram, items_before,
    jobs_ok, lemma_node_sum_concat, lemma_node_sum_order, merge_pending, node_sum, outside_slots, rows_ok,
    merge_partials_kernel, NodeHistJob, PendingMerge, BLOCK_THREADS, DEFAULT_MAX_BLOCKS_PER_GROUP,
    DEFAULT_SHMEM_BYTES, ITEMS_PER_THREAD, MAX_CHUNKS_PER_NODE, SMEM_MIN_WORDS, TOUCH_ROWS,
};
use crate::gpu::launch::{block_1d, ceil_div, has_planes, lemma_ceil_div, max_of, min_of, serial_width, Hardware};
use crate::gpu::pairs::{exact, lemma_wrap_plus, minus, wrap};
use crate::gpu::row_partitioner::has_row;
use crate::gpu::tables::{holds_words, narrow_words, words_of};
use crate::gpu::GradientPairInt64;

verus! {

/// What a runtime can do, as far as the engine asks.
#[derive(Clone, Copy, Debug, PartialEq, Eq, Structural)]
pub struct Capabilities {
    pub hardware: Hardware,
    /// 32-bit atomic additions.
    pub atomic_add_u32: bool,
    /// Native 64-bit atomic additions.
    pub atomic_add_i64: bool,
    /// Double-precision arithmetic.
    pub float64: bool,
}

/// Whether the runtime supports native 64-bit atomic additions.
pub fn supports_native_i64_atomics(capabilities: &Capabilities) -> (yes: bool)
    ensures
        yes == capabilities.atomic_add_i64,
{
    capabilities.atomic_add_i64
}

/// Whether the runtime supports 32-bit atomic additions, which the carry scheme rests on.
pub fn supports_atomic_add_u32(capabilities: &Capabilities) -> (yes: bool)
    ensures
        yes == capabilities.atomic_add_u32,
{
    capabilities.atomic_add_u32
}

/// Whether the runtime can express double precision at all.
pub fn supports_f64(capabilities: &Capabilities) -> (yes: bool)
    ensures
        yes == capabilities.float64,
{
    capabilities.float64
}

// ---------------------------------------------------------- feature groups ----

/// Cut pointers that do not decrease.
pub open spec fn cuts_ascend(cut_ptrs: Seq<u32>) -> bool {
    forall|a: int, b: int| 0 <= a <= b < cut_ptrs.len() ==> #[trigger] cut_ptrs[a] <= #[trigger] cut_ptrs[b]
}

/// Bins that fit in `shmem_bytes` of shared memory, at four 32-bit words each.
pub open spec fn bin_budget(shmem_bytes: usize) -> int {
    ((shmem_bytes / 16) as u32) as int
}

/// `group` holds the features from its first on for as long as their bins fit.
pub open spec fn widest_group(cut_ptrs: Seq<u32>, budget: int, group: FeatureGroup) -> bool {
    let end = group.start_feature + group.num_features;
    &&& group.num_features > 0
    &&& end < cut_ptrs.len()
    &&& group.start_bin == cut_ptrs[group.start_feature as int]
    &&& group.num_bins == cut_ptrs[end] - cut_ptrs[group.start_feature as int]
    &&& group.num_bins <= budget
    &&& end + 1 < cut_ptrs.len() ==> cut_ptrs[end + 1] - cut_ptrs[group.start_feature as int] > budget
}

/// Features in the first `n` groups.
pub open spec fn features_before(groups: Seq<FeatureGroup>, n: int) -> int {
    if n <= 0 {
        0
    } else {
        groups[n - 1].start_feature + groups[n - 1].num_features
    }
}

/// `groups` are the widest groups that fit, one after the other from the first feature
/// on.
pub open spec fn widest_groups(cut_ptrs: Seq<u32>, budget: int, groups: Seq<FeatureGroup>) -> bool {
    &&& forall|y: int| 0 <= y < groups.len() ==> widest_group(cut_ptrs, budget, #[trigger] groups[y])
    &&& forall|y: int| 0 <= y < groups.len() ==> #[trigger] follows(groups, y)
}

/// Group `y` starts where the groups before it end.
pub open spec fn follows(groups: Seq<FeatureGroup>, y: int) -> bool {
    groups[y].start_feature == features_before(groups, y)
}

/// Pack consecutive features into groups whose bins fit in `shmem_bytes` of shared memory.
/// `None` if some single feature does not fit.
///
/// Only valid for feature-local bins, where a cube walks exactly its group's features.
pub fn build_feature_groups(cut_ptrs: &[u32], shmem_bytes: usize) -> (groups: Option<Vec<FeatureGroup>>)
    requires
        0 < cut_ptrs.len() <= u32::MAX,
        cuts_ascend(cut_ptrs@),
    ensures
        groups is None <==> exists|f: int|
            0 <= f < cut_ptrs.len() - 1 && #[trigger] cut_ptrs[f + 1] - cut_ptrs[f] > bin_budget(shmem_bytes),
        groups matches Some(g) ==> widest_groups(cut_ptrs@, bin_budget(shmem_bytes), g@) && features_before(
            g@,
            g.len() as int,
        ) == cut_ptrs.len() - 1,
{
    let max_bins: u32 = #[verifier::truncate]
    ((shmem_bytes / 16) as u32);
    let n_features: usize = cut_ptrs.len() - 1;
    let mut groups: Vec<FeatureGroup> = Vec::new();
    let mut start: usize = 0;
    while start < n_features
        invariant
            n_features == cut_ptrs.len() - 1,
            cut_ptrs.len() <= u32::MAX,
            cuts_ascend(cut_ptrs@),
            max_bins == bin_budget(shmem_bytes),
            start <= n_features,
            start == features_before(groups@, groups.len() as int),
            widest_groups(cut_ptrs@, max_bins as int, groups@),
            forall|f: int| 0 <= f < start ==> #[trigger] cut_ptrs[f + 1] - cut_ptrs[f] <= max_bins,
        decreases n_features - start,
    {
        let mut end: usize = start;
        while end < n_features && cut_ptrs[end + 1] - cut_ptrs[start] <= max_bins
            invariant
                n_features == cut_ptrs.len() - 1,
                cuts_ascend(cut_ptrs@),
                start <= end <= n_features,
                start < n_features,
                end > start ==> cut_ptrs[end as int] - cut_ptrs[start as int] <= max_bins,
                forall|f: int| start <= f < end ==> #[trigger] cut_ptrs[f + 1] - cut_ptrs[f] <= max_bins,
            ensures
                start <= end <= n_features,
                end > start ==> cut_ptrs[end as int] - cut_ptrs[start as int] <= max_bins,
                end < n_features ==> cut_ptrs[end + 1] - cut_ptrs[start as int] > max_bins,
                forall|f: int| start <= f < end ==> #[trigger] cut_ptrs[f + 1] - cut_ptrs[f] <= max_bins,
            decreases n_features - end,
        {
            assert(cut_ptrs[start as int] <= cut_ptrs[end as int]);
            end += 1;
        }
        if end == start {
            assert(cut_ptrs[start + 1] - cut_ptrs[start as int] > max_bins);
            return None;
        }
        let ghost was = groups@;
        groups.push(
            FeatureGroup {
                start_feature: start as u32,
                num_features: (end - start) as u32,
                start_bin: cut_ptrs[start],
                num_bins: cut_ptrs[end] - cut_ptrs[start],
            },
        );
        proof {
            assert forall|y: int| 0 <= y < groups.len() implies widest_group(
                cut_ptrs@,
                max_bins as int,
                #[trigger] groups[y],
            ) by {
                if y < was.len() {
                    assert(was[y] == groups[y]);
                }
            }
            assert forall|y: int| 0 <= y < groups.len() implies #[trigger] follows(groups@, y) by {
                if y > 0 {
                    assert(was[y - 1] == groups[y - 1]);
                }
                if y < was.len() {
                    assert(follows(was, y));
                    assert(was[y] == groups[y]);
                }
            }
        }
        start = end;
    }
    Some(groups)
}

// ------------------------------------------------------------ the builder ----

impl EllpackMatrix {
    /// The entries are bins of the matrix's own cuts: feature-local bins below their
    /// feature's count, or global bins below the total.
    pub open spec fn well_binned(&self) -> bool {
        &&& self.is_full()
        &&& 2 <= self.cut_ptrs.len() <= u32::MAX
        &&& self.cut_ptrs[0] == 0
        &&& cuts_ascend(self.cut_ptrs@)
        &&& self.layout != EllpackLayout::Sparse ==> self.row_stride == self.cut_ptrs.len() - 1
        &&& forall|r: int, k: int|
            0 <= r < self.n_rows && 0 <= k < self.row_stride && (self.layout == EllpackLayout::Dense || self.stored(
                r,
                k,
            ) != self.null_value) ==> if self.layout == EllpackLayout::Sparse {
                #[trigger] self.stored(r, k) < self.cut_ptrs@.last()
            } else {
                self.stored(r, k) < self.cut_ptrs[k + 1] - self.cut_ptrs[k]
            }
    }

    /// The matrix is small enough for 32-bit entry indices.
    pub open spec fn indexable(&self) -> bool {
        &&& self.n_rows * self.row_stride <= u32::MAX
        &&& self.n_rows * self.row_stride <= usize::MAX - 64
        &&& self.row_stride <= u32::MAX
        &&& self.base_rowid + self.n_rows <= u32::MAX
    }
}

/// The packed form of a well-binned matrix holds bins below the total.
proof fn lemma_bins_below(ell: &DeviceEllpack, matrix: &EllpackMatrix)
    requires
        matrix.well_binned(),
        ell.holds(matrix),
        ell.wf(),
        matrix.fits_in(ell.bits as int),
    ensures
        bins_below(ell, matrix.cut_ptrs@.last() as int),
{
    lemma_packed_cells(ell, matrix);
    assert forall|row: u32, f: int| has_row(ell, row) && 0 <= f < ell.row_stride implies match #[trigger] global_bin(
        ell,
        row,
        f,
    ) {
        Some(g) => g < matrix.cut_ptrs@.last() && g <= u32::MAX,
        None => true,
    } by {
        let r = row - ell.base_rowid;
        assert(ell.stored(r, f) == matrix.stored(r, f));
        if global_bin(ell, row, f) is Some {
            if matrix.layout != EllpackLayout::Sparse {
                assert(matrix.stored(r, f) < matrix.cut_ptrs[f + 1] - matrix.cut_ptrs[f]);
                assert(matrix.cut_ptrs[f + 1] <= matrix.cut_ptrs[matrix.cut_ptrs.len() - 1]);
            }
        }
    }
}

/// A single group of every feature.
pub open spec fn all_features(matrix: &EllpackMatrix) -> FeatureGroup {
    FeatureGroup {
        start_feature: 0,
        num_features: (matrix.cut_ptrs.len() - 1) as u32,
        start_bin: 0,
        num_bins: matrix.cut_ptrs@.last(),
    }
}

/// The single group holds every entry and every bin.
proof fn lemma_all_features(ell: &DeviceEllpack, matrix: &EllpackMatrix)
    requires
        matrix.well_binned(),
        ell.holds(matrix),
        ell.wf(),
        matrix.fits_in(ell.bits as int),
    ensures
        groups_tile(ell, seq![all_features(matrix)]),
        groups_hold(ell, seq![all_features(matrix)], matrix.cut_ptrs@.last() as int),
{
    lemma_bins_below(ell, matrix);
    let group = all_features(matrix);
    assert(group_bins(ell, &group, 0, matrix.cut_ptrs@.last() as int)) by {
        assert forall|row: u32, f: int|
            has_row(ell, row) && group.start_feature <= f < group.start_feature + feature_stride(ell, &group) implies match #[trigger] global_bin(
            ell,
            row,
            f,
        ) {
            Some(g) => 0 <= g < 0 + matrix.cut_ptrs@.last() && g <= u32::MAX,
            None => true,
        } by {}
    }
}

/// The features of one group fall into the group's bins.
proof fn lemma_group_bins(ell: &DeviceEllpack, matrix: &EllpackMatrix, group: FeatureGroup, budget: int)
    requires
        matrix.well_binned(),
        matrix.layout != EllpackLayout::Sparse,
        ell.holds(matrix),
        ell.wf(),
        matrix.fits_in(ell.bits as int),
        widest_group(matrix.cut_ptrs@, budget, group),
    ensures
        group_bins(ell, &group, group.start_bin as int, group.num_bins as int),
        group.start_bin + group.num_bins <= matrix.cut_ptrs@.last(),
{
    let cuts = matrix.cut_ptrs@;
    let first = group.start_feature as int;
    let end = group.start_feature + group.num_features;
    assert(cuts[first] <= cuts[end]);
    assert(cuts[end] <= cuts[cuts.len() - 1]);
    assert(ell.compressed);
    assert(feature_stride(ell, &group) == group.num_features);
    assert(ell.row_stride == cuts.len() - 1);
    assert forall|row: u32, f: int| has_row(ell, row) && first <= f < end implies match #[trigger] global_bin(
        ell,
        row,
        f,
    ) {
        Some(g) => group.start_bin <= g < group.start_bin + group.num_bins && g <= u32::MAX,
        None => true,
    } by {
        lemma_cell_bin(ell, matrix, row, f);
        assert(cuts[first] <= cuts[f]);
        assert(cuts[f + 1] <= cuts[end]);
    }
}

/// Where an entry of a feature-local matrix falls.
proof fn lemma_cell_bin(ell: &DeviceEllpack, matrix: &EllpackMatrix, row: u32, f: int)
    requires
        matrix.well_binned(),
        matrix.layout != EllpackLayout::Sparse,
        ell.holds(matrix),
        ell.wf(),
        matrix.fits_in(ell.bits as int),
        has_row(ell, row),
        0 <= f < ell.row_stride,
    ensures
        global_bin(ell, row, f) matches Some(g) ==> matrix.cut_ptrs[f] <= g < matrix.cut_ptrs[f + 1],
{
    lemma_packed_cells(ell, matrix);
    let r = row - ell.base_rowid;
    assert(ell.stored(r, f) == matrix.stored(r, f));
}

/// The widest groups hold every entry, each its own bins.
proof fn lemma_widest_groups(ell: &DeviceEllpack, matrix: &EllpackMatrix, groups: Seq<FeatureGroup>, budget: int)
    requires
        matrix.well_binned(),
        matrix.layout != EllpackLayout::Sparse,
        ell.holds(matrix),
        ell.wf(),
        matrix.fits_in(ell.bits as int),
        widest_groups(matrix.cut_ptrs@, budget, groups),
        features_before(groups, groups.len() as int) == matrix.cut_ptrs.len() - 1,
    ensures
        groups_tile(ell, groups),
        groups_hold(ell, groups, matrix.cut_ptrs@.last() as int),
{
    assert(groups.len() > 0);
    assert(follows(groups, 0));
    assert forall|y: int| 0 <= y < groups.len() implies (#[trigger] groups[y]).start_feature + groups[y].num_features
        == group_start(ell, groups, y + 1) by {
        if y + 1 < groups.len() {
            assert(follows(groups, y + 1));
        }
    }
    assert forall|y: int| 0 <= y < groups.len() implies ({
        let group = #[trigger] groups[y];
        &&& group_bins(ell, &group, group.start_bin as int, group.num_bins as int)
        &&& group.start_bin + group.num_bins <= matrix.cut_ptrs@.last()
    }) by {
        lemma_group_bins(ell, matrix, groups[y], budget);
    }
}

/// Configures a [`HistogramEngine`].
#[derive(Clone, Copy, Debug)]
pub struct HistogramBuilder {
    capabilities: Capabilities,
    /// `None` until the caller names one.
    shmem_bytes: Option<usize>,
    force_global: bool,
    max_blocks_per_group: u32,
    native_i64_atomics: Option<bool>,
}

impl HistogramBuilder {
    pub closed spec fn runtime(&self) -> Capabilities {
        self.capabilities
    }

    pub closed spec fn shared_budget(&self) -> Option<usize> {
        self.shmem_bytes
    }

    pub closed spec fn global_forced(&self) -> bool {
        self.force_global
    }

    pub closed spec fn block_cap(&self) -> u32 {
        self.max_blocks_per_group
    }

    pub closed spec fn native_asked(&self) -> Option<bool> {
        self.native_i64_atomics
    }

    pub fn new(capabilities: Capabilities) -> (builder: Self)
        ensures
            builder.runtime() == capabilities,
            builder.shared_budget() is None,
            !builder.global_forced(),
            builder.block_cap() == DEFAULT_MAX_BLOCKS_PER_GROUP,
            builder.native_asked() is None,
    {
        HistogramBuilder {
            capabilities,
            shmem_bytes: None,
            force_global: false,
            max_blocks_per_group: DEFAULT_MAX_BLOCKS_PER_GROUP,
            native_i64_atomics: None,
        }
    }

    /// Per-workgroup shared-memory budget; [`DEFAULT_SHMEM_BYTES`] unless named.
    pub fn shmem_bytes(self, bytes: usize) -> (builder: Self)
        ensures
            builder.shared_budget() == Some(bytes),
            builder.runtime() == self.runtime(),
            builder.global_forced() == self.global_forced(),
            builder.block_cap() == self.block_cap(),
            builder.native_asked() == self.native_asked(),
    {
        HistogramBuilder { shmem_bytes: Some(bytes), ..self }
    }

    /// Force the global-memory path.
    pub fn force_global(self, force: bool) -> (builder: Self)
        ensures
            builder.global_forced() == force,
            builder.runtime() == self.runtime(),
            builder.shared_budget() == self.shared_budget(),
            builder.block_cap() == self.block_cap(),
            builder.native_asked() == self.native_asked(),
    {
        HistogramBuilder { force_global: force, ..self }
    }

    /// Cap on the cubes per feature group; at least one.
    pub fn max_blocks_per_group(self, n: u32) -> (builder: Self)
        ensures
            builder.block_cap() == max_of(n as int, 1),
            builder.runtime() == self.runtime(),
            builder.shared_budget() == self.shared_budget(),
            builder.global_forced() == self.global_forced(),
            builder.native_asked() == self.native_asked(),
    {
        let cap: u32 = if n == 0 {
            1
        } else {
            n
        };
        HistogramBuilder { max_blocks_per_group: cap, ..self }
    }

    /// Force native 64-bit atomics on or off; detected from the runtime unless named.
    pub fn native_i64_atomics(self, enable: bool) -> (builder: Self)
        ensures
            builder.native_asked() == Some(enable),
            builder.runtime() == self.runtime(),
            builder.shared_budget() == self.shared_budget(),
            builder.global_forced() == self.global_forced(),
            builder.block_cap() == self.block_cap(),
    {
        HistogramBuilder { native_i64_atomics: Some(enable), ..self }
    }
}

/// Builds gradient histograms against a packed matrix.
///
/// Created by [`HistogramBuilder::build`].
pub struct HistogramEngine {
    pub ell: DeviceEllpack,
    pub hardware: Hardware,
    pub groups: Vec<FeatureGroup>,
    pub n_bins: usize,
    pub native_i64: bool,
    pub use_shared: bool,
    /// No atomics anywhere on this runtime.
    pub atomic_free: bool,
    /// Shared-memory words of the widest group.
    pub smem_words: usize,
    /// Cap on the row chunks one node is cut into on the atomic-free path.
    pub max_chunks: u32,
    pub max_blocks_per_group: u32,
}

/// Bins of the widest group.
pub open spec fn widest_bins(groups: Seq<FeatureGroup>, n: int) -> int
    decreases n,
{
    if n <= 0 {
        0
    } else {
        max_of(widest_bins(groups, n - 1), groups[n - 1].num_bins as int)
    }
}

impl HistogramBuilder {
    /// The shared-memory budget in force.
    pub open spec fn budget(&self) -> usize {
        match self.shared_budget() {
            Some(bytes) => bytes,
            None => DEFAULT_SHMEM_BYTES,
        }
    }

    /// Whether the matrix's bins can be gathered in shared memory: the budget holds every
    /// single feature where bins are feature-local, every bin at once where they are
    /// global. Nothing is gathered where the global path is forced or there are no atomics.
    pub open spec fn gathers(&self, matrix: &EllpackMatrix) -> bool {
        &&& !self.global_forced()
        &&& self.runtime().atomic_add_u32
        &&& if matrix.layout != EllpackLayout::Sparse {
            forall|f: int|
                0 <= f < matrix.cut_ptrs.len() - 1 ==> #[trigger] matrix.cut_ptrs[f + 1] - matrix.cut_ptrs[f]
                    <= bin_budget(self.budget())
        } else {
            matrix.cut_ptrs@.last() * 16 <= self.budget()
        }
    }

    /// The engine this builder makes of `matrix`.
    pub open spec fn makes(&self, matrix: &EllpackMatrix, engine: &HistogramEngine) -> bool {
        &&& engine.ell.holds(matrix)
        &&& engine.wf()
        &&& engine.hardware == self.runtime().hardware
        &&& engine.n_bins == matrix.cut_ptrs@.last()
        &&& engine.atomic_free == !self.runtime().atomic_add_u32
        &&& engine.use_shared == (self.gathers(matrix) || engine.atomic_free)
        &&& if self.gathers(matrix) && matrix.layout != EllpackLayout::Sparse {
            widest_groups(matrix.cut_ptrs@, bin_budget(self.budget()), engine.groups@) && features_before(
                engine.groups@,
                engine.groups.len() as int,
            ) == matrix.cut_ptrs.len() - 1
        } else {
            engine.groups@ == seq![all_features(matrix)]
        }
        &&& engine.smem_words == (if self.gathers(matrix) {
            max_of(4 * widest_bins(engine.groups@, engine.groups.len() as int), SMEM_MIN_WORDS as int)
        } else {
            SMEM_MIN_WORDS as int
        })
        &&& engine.max_chunks == max_of(
            2 * (if self.runtime().hardware.plane_size_max > 1 {
                self.runtime().hardware.block(256)
            } else {
                self.runtime().hardware.cores()
            }),
            MAX_CHUNKS_PER_NODE as int,
        )
        &&& engine.native_i64 == (match self.native_asked() {
            Some(enable) => enable,
            None => self.runtime().atomic_add_i64,
        })
        &&& engine.max_blocks_per_group == self.block_cap()
    }

    /// What is wrong with `matrix`, in the order it is looked for.
    pub open spec fn objection(&self, matrix: &EllpackMatrix) -> Option<Error> {
        if matrix.cut_ptrs.len() < 2 {
            Some(Error::InvalidCuts { got: matrix.cut_ptrs.len() })
        } else if !matrix.is_full() {
            Some(
                Error::MatrixShape {
                    expected: (matrix.n_rows * matrix.row_stride) as usize,
                    got: matrix.gidx.len(),
                },
            )
        } else if !self.runtime().atomic_add_u32 && self.global_forced() {
            Some(Error::NoGlobalHistogramPath)
        } else {
            None
        }
    }

    fn check(&self, matrix: &EllpackMatrix) -> (result: Result<(), Error>)
        requires
            matrix.n_rows * matrix.row_stride <= usize::MAX,
        ensures
            result is Ok <==> self.objection(matrix) is None,
            result matches Err(e) ==> self.objection(matrix) == Some(e),
    {
        if matrix.cut_ptrs.len() < 2 {
            return Err(Error::InvalidCuts { got: matrix.cut_ptrs.len() });
        }
        let expected: usize = matrix.n_rows * matrix.row_stride;
        if matrix.gidx.len() != expected {
            return Err(Error::MatrixShape { expected, got: matrix.gidx.len() });
        }
        if !supports_atomic_add_u32(&self.capabilities) && self.force_global {
            return Err(Error::NoGlobalHistogramPath);
        }
        Ok(())
    }

    /// Validate the matrix, decide the shared or global dispatch, and pack the matrix.
    pub fn build(self, matrix: &EllpackMatrix) -> (result: Result<HistogramEngine, Error>)
        requires
            matrix.n_rows * matrix.row_stride <= usize::MAX,
            self.objection(matrix) is None ==> matrix.well_binned() && matrix.indexable(),
            self.runtime().hardware.plane_size_max < 0x8000_0000,
        ensures
            result is Ok <==> self.objection(matrix) is None,
            result matches Err(e) ==> self.objection(matrix) == Some(e),
            result matches Ok(engine) ==> self.makes(matrix, &engine) && matrix.fits_in(engine.ell.bits as int)
                && (self.runtime().hardware.plane_size_max <= 1 ==> engine.ell.bits == 32)
                && (self.runtime().hardware.plane_size_max > 1 ==> forall|w: int|
                1 <= w < engine.ell.bits ==> !matrix.fits_in(w)),
    {
        match self.check(matrix) {
            Err(e) => Err(e),
            Ok(()) => {
                let ell: DeviceEllpack = DeviceEllpack::upload(has_planes(&self.capabilities.hardware), matrix);
                Ok(self.assemble(matrix, ell))
            },
        }
    }

    /// [`build`](Self::build) against a matrix already packed.
    pub fn build_shared(self, matrix: &EllpackMatrix, shared: DeviceEllpack) -> (result: Result<HistogramEngine, Error>)
        requires
            matrix.n_rows * matrix.row_stride <= usize::MAX,
            self.objection(matrix) is None ==> matrix.well_binned() && matrix.indexable() && shared.holds(matrix)
                && shared.wf() && matrix.fits_in(shared.bits as int),
            self.runtime().hardware.plane_size_max < 0x8000_0000,
        ensures
            result is Ok <==> self.objection(matrix) is None,
            result matches Err(e) ==> self.objection(matrix) == Some(e),
            result matches Ok(engine) ==> self.makes(matrix, &engine) && engine.ell == shared,
    {
        match self.check(matrix) {
            Err(e) => Err(e),
            Ok(()) => Ok(self.assemble(matrix, shared)),
        }
    }

    fn assemble(self, matrix: &EllpackMatrix, ell: DeviceEllpack) -> (engine: HistogramEngine)
        requires
            self.objection(matrix) is None,
            matrix.well_binned(),
            matrix.indexable(),
            ell.holds(matrix),
            ell.wf(),
            matrix.fits_in(ell.bits as int),
            self.runtime().hardware.plane_size_max < 0x8000_0000,
        ensures
            self.makes(matrix, &engine),
            engine.ell == ell,
    {
        let atomic_free: bool = !supports_atomic_add_u32(&self.capabilities);
        let shmem_bytes: usize = match self.shmem_bytes {
            Some(bytes) => bytes,
            None => DEFAULT_SHMEM_BYTES,
        };
        let everything = FeatureGroup {
            start_feature: 0,
            num_features: matrix.n_features() as u32,
            start_bin: 0,
            num_bins: matrix.n_bins(),
        };
        let gathered: Option<Vec<FeatureGroup>> = if self.force_global || atomic_free {
            None
        } else if matrix.is_compressed() {
            build_feature_groups(matrix.cut_ptrs.as_slice(), shmem_bytes)
        } else if matrix.n_bins() as u64 * 16 <= shmem_bytes as u64 {
            let mut one: Vec<FeatureGroup> = Vec::new();
            one.push(everything);
            Some(one)
        } else {
            None
        };
        let gathers: bool = gathered.is_some();
        let groups: Vec<FeatureGroup> = match gathered {
            Some(groups) => groups,
            None => {
                let mut one: Vec<FeatureGroup> = Vec::new();
                one.push(everything);
                one
            },
        };
        proof {
            if gathers && matrix.layout != EllpackLayout::Sparse {
                lemma_widest_groups(&ell, matrix, groups@, bin_budget(shmem_bytes));
            } else {
                assert(groups@ =~= seq![all_features(matrix)]);
                lemma_all_features(&ell, matrix);
            }
            lemma_bins_below(&ell, matrix);
        }
        let mut widest: u32 = 0;
        let mut y: usize = 0;
        while y < groups.len()
            invariant
                y <= groups.len(),
                widest == widest_bins(groups@, y as int),
                gathers ==> forall|k: int| 0 <= k < groups.len() ==> (#[trigger] groups[k]).num_bins * 16 <= shmem_bytes,
                gathers ==> widest * 16 <= shmem_bytes,
            decreases groups.len() - y,
        {
            if groups[y].num_bins > widest {
                widest = groups[y].num_bins;
            }
            y += 1;
        }
        let smem_words: usize = if gathers && widest as usize * 4 > SMEM_MIN_WORDS {
            widest as usize * 4
        } else {
            SMEM_MIN_WORDS
        };
        let width: u32 = serial_width(&self.capabilities.hardware);
        let max_chunks: u32 = if 2 * width > MAX_CHUNKS_PER_NODE {
            2 * width
        } else {
            MAX_CHUNKS_PER_NODE
        };
        let native_i64: bool = match self.native_i64_atomics {
            Some(enable) => enable,
            None => supports_native_i64_atomics(&self.capabilities),
        };
        HistogramEngine {
            ell,
            hardware: self.capabilities.hardware,
            groups,
            n_bins: matrix.n_bins() as usize,
            native_i64,
            use_shared: gathers || atomic_free,
            atomic_free,
            smem_words,
            max_chunks,
            max_blocks_per_group: self.max_blocks_per_group,
        }
    }
}

/// Quantised gradient pairs, one per matrix row.
pub struct DeviceGpairs {
    pub gpairs: Vec<GradientPairInt64>,
}

impl DeviceGpairs {
    pub fn len(&self) -> (n: usize)
        ensures
            n == self.gpairs.len(),
    {
        self.gpairs.len()
    }

    pub fn is_empty(&self) -> (empty: bool)
        ensures
            empty == (self.gpairs.len() == 0),
    {
        self.gpairs.len() == 0
    }
}

/// The row indices of one tree node: a range of a row index.
pub struct DeviceRows {
    pub ridx: Vec<u32>,
    /// First index of this node's slice.
    pub base: usize,
    pub n: usize,
}

impl DeviceRows {
    /// The node's rows.
    pub open spec fn rows(&self) -> Seq<u32> {
        self.ridx@.subrange(self.base as int, self.base + self.n)
    }

    /// A node's slice of a partitioned row index.
    pub fn slice(ridx: Vec<u32>, base: usize, n: usize) -> (rows: Self)
        ensures
            rows.ridx == ridx,
            rows.base == base,
            rows.n == n,
    {
        DeviceRows { ridx, base, n }
    }

    pub fn len(&self) -> (n: usize)
        ensures
            n == self.n,
    {
        self.n
    }

    pub fn is_empty(&self) -> (empty: bool)
        ensures
            empty == (self.n == 0),
    {
        self.n == 0
    }
}

/// A node's histogram.
pub struct DeviceHistogram {
    pub bins: Vec<GradientPairInt64>,
}

impl DeviceHistogram {
    pub fn n_bins(&self) -> (n: usize)
        ensures
            n == self.bins.len(),
    {
        self.bins.len()
    }
}

/// The sibling's histogram: the parent's minus the built child's, bin by bin.
pub open spec fn sibling(parent: Seq<GradientPairInt64>, built: Seq<GradientPairInt64>) -> Seq<GradientPairInt64> {
    Seq::new(parent.len(), |b: int| wrap(minus(exact(parent[b]), exact(built[b]))))
}

/// Where one node's parent, built child and sibling lie, in bins.
pub type Slots = (u32, u32, u32);

/// The subtraction's slots lie inside their buffers, and no two of the frontier's meet.
pub open spec fn slots_ok(slots: Seq<Slots>, n_bins: int, parent_len: int, frontier_len: int) -> bool {
    &&& forall|i: int|
        0 <= i < slots.len() ==> {
            let (p, b, o) = #[trigger] slots[i];
            &&& p + n_bins <= parent_len
            &&& b + n_bins <= frontier_len
            &&& o + n_bins <= frontier_len
            &&& apart(b as int, o as int, n_bins)
        }
    &&& forall|i: int, j: int|
        0 <= i < slots.len() && 0 <= j < slots.len() && i != j ==> {
            let (_, b, o) = #[trigger] slots[i];
            let (_, c, q) = #[trigger] slots[j];
            &&& apart(b as int, c as int, n_bins)
            &&& apart(b as int, q as int, n_bins)
            &&& apart(o as int, q as int, n_bins)
        }
}

/// Position `i` lies in none of the first `n` nodes' slots of the frontier.
pub open spec fn outside_subtraction(slots: Seq<Slots>, n_bins: int, n: int, i: int) -> bool {
    forall|k: int|
        0 <= k < n ==> {
            let (_, b, o) = #[trigger] slots[k];
            &&& !(b <= i < b + n_bins)
            &&& !(o <= i < o + n_bins)
        }
}

/// What the built child of node `k` holds once the pending partials are folded in.
pub open spec fn built_bins(
    pending: Option<PendingMerge>,
    frontier: Seq<GradientPairInt64>,
    slots: Seq<Slots>,
    n_bins: int,
    k: int,
) -> Seq<GradientPairInt64> {
    let at = slots[k].1 as int;
    match pending {
        Some(p) => if p.job_item_begin[k] < p.job_item_end[k] {
            Seq::new(n_bins as nat, |b: int| p.merged(n_bins, k, b))
        } else {
            frontier.subrange(at, at + n_bins)
        },
        None => frontier.subrange(at, at + n_bins),
    }
}

/// The pending partials belong to the same nodes as the slots.
pub open spec fn pending_ok(pending: Option<PendingMerge>, n: int, n_bins: int) -> bool {
    match pending {
        Some(p) => {
            &&& p.job_item_begin.len() == n
            &&& p.job_item_end.len() == n
            &&& forall|k: int|
                0 <= k < n ==> #[trigger] p.job_item_begin[k] <= p.job_item_end[k] && p.job_item_end[k] * n_bins
                    <= p.partials.len()
        },
        None => true,
    }
}

/// One node of a batched subtraction: fold in the built child's partials where it has any,
/// then write the sibling.
fn subtract_batch_kernel(
    parent: &Vec<GradientPairInt64>,
    frontier: &mut Vec<GradientPairInt64>,
    slot: Slots,
    pending: &Option<PendingMerge>,
    k: usize,
    n_bins: usize,
    Ghost(slots): Ghost<Seq<Slots>>,
)
    requires
        k < slots.len(),
        slot == slots[k as int],
        slots_ok(slots, n_bins as int, parent.len() as int, old(frontier).len() as int),
        pending_ok(*pending, slots.len() as int, n_bins as int),
    ensures
        final(frontier).len() == old(frontier).len(),
        ({
            let (p, b, o) = slot;
            let built = built_bins(*pending, old(frontier)@, slots, n_bins as int, k as int);
            &&& final(frontier)@.subrange(b as int, b + n_bins) == built
            &&& final(frontier)@.subrange(o as int, o + n_bins) == sibling(
                parent@.subrange(p as int, p + n_bins),
                built,
            )
            &&& forall|i: int|
                0 <= i < old(frontier).len() && !(b <= i < b + n_bins) && !(o <= i < o + n_bins)
                    ==> #[trigger] final(frontier)[i] == old(frontier)[i]
        }),
{
    let (p, b, o) = slot;
    assert(slots[k as int] == (p, b, o));
    let ghost before = frontier@;
    let ghost built = built_bins(*pending, before, slots, n_bins as int, k as int);
    let (first, end): (u32, u32) = match pending {
        Some(m) => {
            assert(m.job_item_begin[k as int] <= m.job_item_end[k as int]);
            (m.job_item_begin[k], m.job_item_end[k])
        },
        None => (0, 0),
    };
    let mut i: usize = 0;
    while i < n_bins
        invariant
            slot == (p, b, o),
            p + n_bins <= parent.len(),
            b + n_bins <= frontier.len(),
            o + n_bins <= frontier.len(),
            apart(b as int, o as int, n_bins as int),
            frontier.len() == before.len(),
            k < slots.len(),
            slots[k as int] == (p, b, o),
            pending_ok(*pending, slots.len() as int, n_bins as int),
            pending matches Some(m) ==> first == m.job_item_begin[k as int] && end == m.job_item_end[k as int]
                && first <= end && end * n_bins <= m.partials.len(),
            pending is None ==> first == 0 && end == 0,
            built == built_bins(*pending, before, slots, n_bins as int, k as int),
            i <= n_bins,
            forall|j: int|
                0 <= j < n_bins ==> #[trigger] frontier[b + j] == (if j < i {
                    built[j]
                } else {
                    before[b + j]
                }),
            forall|j: int|
                0 <= j < i ==> #[trigger] frontier[o + j] == wrap(minus(exact(parent[p + j]), exact(built[j]))),
            forall|j: int|
                0 <= j < before.len() && !(b <= j < b + n_bins) && !(o <= j < o + n_bins)
                    ==> #[trigger] frontier[j] == before[j],
        decreases n_bins - i,
    {
        let cell: GradientPairInt64 = match pending {
            Some(m) => if first < end {
                merge_partials_kernel(&m.partials, n_bins, first, end, i)
            } else {
                frontier[b as usize + i]
            },
            None => frontier[b as usize + i],
        };
        assert(frontier[b + i] == before[b + i]);
        assert(cell == built[i as int]);
        frontier[b as usize + i] = cell;
        frontier[o as usize + i] = parent[p as usize + i].wrapping_sub(cell);
        i += 1;
    }
    proof {
        let here = frontier@.subrange(b as int, b + n_bins);
        let there = frontier@.subrange(o as int, o + n_bins);
        let from = parent@.subrange(p as int, p + n_bins);
        assert forall|j: int| 0 <= j < n_bins implies here[j] == built[j] by {
            assert(frontier[b + j] == built[j]);
        }
        assert forall|j: int| 0 <= j < n_bins implies there[j] == sibling(from, built)[j] by {
            assert(frontier[o + j] == wrap(minus(exact(parent[p + j]), exact(built[j]))));
        }
        assert(here =~= built);
        assert(there =~= sibling(from, built));
    }
}

impl HistogramEngine {
    /// The matrix, the groups and the bins belong together.
    pub open spec fn wf(&self) -> bool {
        &&& bins_below(&self.ell, self.n_bins as int)
        &&& groups_tile(&self.ell, self.groups@)
        &&& groups_hold(&self.ell, self.groups@, self.n_bins as int)
        &&& self.max_chunks >= 1
    }

    /// A batch is small enough for 32-bit work tables.
    pub open spec fn batch_fits(&self, jobs: Seq<NodeHistJob>) -> bool {
        &&& jobs.len() * self.max_chunks <= u32::MAX
        &&& items_before(jobs, self.max_chunks as int, jobs.len() as int) * self.n_bins <= u32::MAX
        &&& forall|j: int| 0 <= j < jobs.len() ==> (#[trigger] jobs[j]).n_ridx * self.ell.row_stride <= u32::MAX
    }

    /// Every job's slot holds zero.
    pub open spec fn slots_zero(&self, jobs: Seq<NodeHistJob>, dst: Seq<GradientPairInt64>) -> bool {
        forall|j: int, b: int|
            0 <= j < jobs.len() && 0 <= b < self.n_bins ==> dst[(#[trigger] jobs[j]).slot + b] == (
            #[trigger] zero_pair(b))
    }

    pub fn n_bins(&self) -> (n: usize)
        ensures
            n == self.n_bins,
    {
        self.n_bins
    }

    /// Whether the privatised histogram path is active.
    pub fn uses_shared_memory(&self) -> (yes: bool)
        ensures
            yes == self.use_shared,
    {
        self.use_shared
    }

    /// Whether accumulation uses native 64-bit additions instead of the carry scheme.
    pub fn uses_native_i64_atomics(&self) -> (yes: bool)
        ensures
            yes == self.native_i64,
    {
        self.native_i64
    }

    /// Take quantised gradient pairs (one per matrix row).
    pub fn upload_gpairs(&self, gpairs: &[GradientPairInt64]) -> (result: Result<DeviceGpairs, Error>)
        ensures
            result is Ok <==> gpairs.len() == self.ell.n_rows,
            result matches Ok(d) ==> d.gpairs@ == gpairs@,
            result matches Err(e) ==> e == (Error::GpairCount { expected: self.ell.n_rows, got: gpairs.len() }),
    {
        if gpairs.len() != self.ell.n_rows {
            return Err(Error::GpairCount { expected: self.ell.n_rows, got: gpairs.len() });
        }
        let mut copy: Vec<GradientPairInt64> = Vec::with_capacity(gpairs.len());
        copy.extend_from_slice(gpairs);
        assert(copy@ =~= gpairs@);
        Ok(DeviceGpairs { gpairs: copy })
    }

    /// [`upload_gpairs`](Self::upload_gpairs), taking the buffer rather than copying it.
    pub fn upload_gpairs_owned(&self, gpairs: Vec<GradientPairInt64>) -> (result: Result<DeviceGpairs, Error>)
        ensures
            result is Ok <==> gpairs.len() == self.ell.n_rows,
            result matches Ok(d) ==> d.gpairs == gpairs,
            result matches Err(e) ==> e == (Error::GpairCount { expected: self.ell.n_rows, got: gpairs.len() }),
    {
        if gpairs.len() != self.ell.n_rows {
            return Err(Error::GpairCount { expected: self.ell.n_rows, got: gpairs.len() });
        }
        Ok(DeviceGpairs { gpairs })
    }

    /// Take the row indices of one tree node.
    pub fn upload_rows(&self, ridx: &[u32]) -> (rows: DeviceRows)
        ensures
            rows.ridx@ == ridx@,
            rows.base == 0,
            rows.n == ridx.len(),
    {
        let mut copy: Vec<u32> = Vec::with_capacity(ridx.len());
        copy.extend_from_slice(ridx);
        assert(copy@ =~= ridx@);
        DeviceRows { ridx: copy, base: 0, n: ridx.len() }
    }

    /// A frontier of `bins` bins, all zero.
    pub fn zeroed(&self, bins: usize) -> (frontier: Vec<GradientPairInt64>)
        ensures
            frontier.len() == bins,
            forall|b: int| 0 <= b < bins ==> frontier[b] == #[trigger] zero_pair(b),
    {
        vec![GradientPairInt64 { grad: 0, hess: 0 }; bins]
    }

    /// A frontier of `bins` bins to be built into. Zeroed, as the kernels that only add need
    /// it; those that write every bin do not look.
    pub fn frontier(&self, bins: usize) -> (frontier: Vec<GradientPairInt64>)
        ensures
            frontier.len() == bins,
            forall|b: int| 0 <= b < bins ==> frontier[b] == #[trigger] zero_pair(b),
    {
        self.zeroed(bins)
    }

    /// Zero the first `bins` bins of a buffer.
    pub fn zero_into(&self, hist: &mut Vec<GradientPairInt64>, bins: usize)
        requires
            bins <= old(hist).len(),
        ensures
            final(hist).len() == old(hist).len(),
            forall|b: int| 0 <= b < bins ==> final(hist)[b] == #[trigger] zero_pair(b),
            forall|b: int| bins <= b < old(hist).len() ==> #[trigger] final(hist)[b] == old(hist)[b],
    {
        let ghost was = hist@;
        let mut i: usize = 0;
        while i < bins
            invariant
                i <= bins <= hist.len(),
                hist.len() == was.len(),
                forall|b: int| 0 <= b < i ==> hist[b] == #[trigger] zero_pair(b),
                forall|b: int| i <= b < was.len() ==> #[trigger] hist[b] == was[b],
            decreases bins - i,
        {
            hist.set(i, GradientPairInt64 { grad: 0, hess: 0 });
            i += 1;
        }
    }

    /// Make a buffer that was used before ready to be built into again: zeroed where the
    /// kernel only adds, untouched where it writes every bin.
    pub fn prepare_frontier(&self, frontier: &mut Vec<GradientPairInt64>)
        ensures
            final(frontier).len() == old(frontier).len(),
            self.atomic_free ==> final(frontier)@ == old(frontier)@,
            !self.atomic_free ==> forall|b: int| 0 <= b < old(frontier).len() ==> final(frontier)[b] == #[trigger] zero_pair(b),
    {
        if !self.atomic_free {
            let n: usize = frontier.len();
            let mut i: usize = 0;
            while i < n
                invariant
                    n == frontier.len(),
                    i <= n,
                    forall|b: int| 0 <= b < i ==> frontier[b] == #[trigger] zero_pair(b),
                decreases n - i,
            {
                frontier[i] = GradientPairInt64 { grad: 0, hess: 0 };
                i += 1;
            }
        }
    }

    /// Cubes per feature group of a batch: enough tiles for the rows of the widest node
    /// times the columns of a group, within the cap.
    pub fn grid_blocks(&self, jobs: &[NodeHistJob]) -> (blocks: u32)
        requires
            self.groups.len() > 0,
            self.max_blocks_per_group >= 1,
        ensures
            blocks == min_of(
                max_of(
                    ceil_div(
                        widest_job(jobs@, jobs.len() as int) * ceil_div(
                            self.ell.row_stride as int,
                            self.groups.len() as int,
                        ),
                        self.hardware.block(BLOCK_THREADS as int) * ITEMS_PER_THREAD,
                    ),
                    1,
                ),
                self.max_blocks_per_group as int,
            ),
            blocks >= 1,
    {
        let mut widest: u32 = 0;
        let mut j: usize = 0;
        while j < jobs.len()
            invariant
                j <= jobs.len(),
                widest == widest_job(jobs@, j as int),
            decreases jobs.len() - j,
        {
            if jobs[j].n_ridx > widest {
                widest = jobs[j].n_ridx;
            }
            j += 1;
        }
        let n_groups: u64 = self.groups.len() as u64;
        let stride: u64 = self.ell.row_stride as u64;
        let block: u32 = block_1d(&self.hardware, BLOCK_THREADS);
        proof {
            lemma_ceil_div(stride as int, n_groups as int);
            let columns = ceil_div(stride as int, n_groups as int);
            assert(0 <= widest * columns <= u32::MAX * u32::MAX) by (nonlinear_arith)
                requires
                    0 <= widest <= u32::MAX,
                    0 <= columns <= u32::MAX,
            ;
            assert(0 < block * ITEMS_PER_THREAD <= u32::MAX * 8) by (nonlinear_arith)
                requires
                    0 < block <= u32::MAX,
                    ITEMS_PER_THREAD == 8,
            ;
            lemma_ceil_div(widest * columns, block * ITEMS_PER_THREAD);
        }
        let columns: u64 = if stride % n_groups == 0 {
            stride / n_groups
        } else {
            stride / n_groups + 1
        };
        let items: u64 = widest as u64 * columns;
        let tile: u64 = block as u64 * ITEMS_PER_THREAD as u64;
        let tiles: u64 = if items % tile == 0 {
            items / tile
        } else {
            items / tile + 1
        };
        if tiles < 1 {
            1
        } else if tiles > self.max_blocks_per_group as u64 {
            self.max_blocks_per_group
        } else {
            tiles as u32
        }
    }

    /// Accumulate a whole level of node histograms, each into its slot of `dst`.
    ///
    /// Where the runtime has atomics the slots must hold zero, because the kernel only
    /// adds; where it has none they are written whole.
    pub fn build_into_batch(
        &self,
        gpairs: &DeviceGpairs,
        ridx: &Vec<u32>,
        jobs: &[NodeHistJob],
        dst: &mut Vec<GradientPairInt64>,
    )
        requires
            self.wf(),
            self.max_blocks_per_group >= 1,
            self.batch_fits(jobs@),
            jobs_ok(&self.ell, gpairs.gpairs@, ridx@, jobs@, self.n_bins as int, old(dst).len() as int),
            !self.atomic_free ==> self.slots_zero(jobs@, old(dst)@),
        ensures
            final(dst).len() == old(dst).len(),
            forall|j: int|
                0 <= j < jobs.len() ==> final(dst)@.subrange(
                    (#[trigger] jobs[j]).slot as int,
                    jobs[j].slot + self.n_bins,
                ) == histogram(&self.ell, gpairs.gpairs@, jobs[j].rows(ridx@), self.n_bins as int),
            forall|i: int|
                0 <= i < old(dst).len() && outside_slots(jobs@, self.n_bins as int, i) ==> #[trigger] final(dst)[i]
                    == old(dst)[i],
    {
        if self.atomic_free {
            let touch: usize = if has_planes(&self.hardware) {
                0
            } else {
                TOUCH_ROWS as usize
            };
            build_into_batch(
                &self.ell,
                &gpairs.gpairs,
                ridx,
                jobs,
                dst,
                self.n_bins,
                self.max_chunks,
                touch,
            );
            return ;
        }
        let cubes: u32 = self.grid_blocks(jobs);
        let dim: u32 = block_1d(&self.hardware, BLOCK_THREADS);
        let ghost before = dst@;
        let mut j: usize = 0;
        while j < jobs.len()
            invariant
                self.wf(),
                self.batch_fits(jobs@),
                jobs_ok(&self.ell, gpairs.gpairs@, ridx@, jobs@, self.n_bins as int, before.len() as int),
                self.slots_zero(jobs@, before),
                cubes >= 1,
                dim >= 1,
                dst.len() == before.len(),
                j <= jobs.len(),
                forall|k: int|
                    0 <= k < j ==> dst@.subrange((#[trigger] jobs[k]).slot as int, jobs[k].slot + self.n_bins)
                        == histogram(&self.ell, gpairs.gpairs@, jobs[k].rows(ridx@), self.n_bins as int),
                forall|i: int|
                    0 <= i < before.len() && outside_slots(jobs@.subrange(0, j as int), self.n_bins as int, i)
                        ==> #[trigger] dst[i] == before[i],
            decreases jobs.len() - j,
        {
            let job: NodeHistJob = jobs[j];
            let ghost was = dst@;
            proof {
                assert(jobs[j as int] == job);
                assert forall|b: int| 0 <= b < self.n_bins implies #[trigger] dst[job.slot + b] == (
                GradientPairInt64 { grad: 0, hess: 0 }) by {
                    let i = job.slot + b;
                    let sofar = jobs@.subrange(0, j as int);
                    assert forall|k: int| 0 <= k < sofar.len() implies !((#[trigger] sofar[k]).slot <= i < sofar[k].slot
                        + self.n_bins) by {
                        assert(sofar[k] == jobs[k]);
                        assert(apart(jobs[k].slot as int, jobs[j as int].slot as int, self.n_bins as int));
                    }
                    assert(outside_slots(sofar, self.n_bins as int, i));
                    assert(dst[i] == before[i]);
                    assert(before[jobs[j as int].slot + b] == zero_pair(b));
                }
            }
            hist_kernel(
                &self.ell,
                &self.groups,
                ridx,
                &gpairs.gpairs,
                dst,
                job.ridx_base,
                job.n_ridx,
                job.slot as usize,
                self.n_bins,
                cubes,
                dim,
                self.use_shared,
                self.native_i64,
            );
            proof {
                assert forall|k: int| 0 <= k < j + 1 implies dst@.subrange(
                    (#[trigger] jobs[k]).slot as int,
                    jobs[k].slot + self.n_bins,
                ) == histogram(&self.ell, gpairs.gpairs@, jobs[k].rows(ridx@), self.n_bins as int) by {
                    if k < j {
                        assert(apart(jobs[k].slot as int, jobs[j as int].slot as int, self.n_bins as int));
                        assert(dst@.subrange(jobs[k].slot as int, jobs[k].slot + self.n_bins) =~= was.subrange(
                            jobs[k].slot as int,
                            jobs[k].slot + self.n_bins,
                        ));
                    }
                }
                assert forall|i: int|
                    0 <= i < before.len() && outside_slots(jobs@.subrange(0, j + 1), self.n_bins as int, i) implies #[trigger] dst[i]
                    == before[i] by {
                    let more = jobs@.subrange(0, j + 1);
                    let sofar = jobs@.subrange(0, j as int);
                    assert(more[j as int] == job);
                    assert forall|k: int| 0 <= k < sofar.len() implies !((#[trigger] sofar[k]).slot <= i < sofar[k].slot
                        + self.n_bins) by {
                        assert(sofar[k] == more[k]);
                    }
                    assert(outside_slots(sofar, self.n_bins as int, i));
                    assert(was[i] == before[i]);
                }
            }
            j += 1;
        }
        assert(jobs@.subrange(0, jobs.len() as int) =~= jobs@);
    }

    /// [`build_into_batch`](Self::build_into_batch), leaving the partials of nodes cut into
    /// several chunks unmerged for [`subtract_batch`](Self::subtract_batch) to fold in.
    ///
    /// `None` when nothing is pending, in which case `dst` is complete.
    pub fn build_into_batch_deferred(
        &self,
        gpairs: &DeviceGpairs,
        ridx: &Vec<u32>,
        jobs: &[NodeHistJob],
        dst: &mut Vec<GradientPairInt64>,
    ) -> (pending: Option<PendingMerge>)
        requires
            self.wf(),
            self.max_blocks_per_group >= 1,
            self.batch_fits(jobs@),
            jobs_ok(&self.ell, gpairs.gpairs@, ridx@, jobs@, self.n_bins as int, old(dst).len() as int),
            !self.atomic_free ==> self.slots_zero(jobs@, old(dst)@),
        ensures
            final(dst).len() == old(dst).len(),
            forall|i: int|
                0 <= i < old(dst).len() && outside_slots(jobs@, self.n_bins as int, i) ==> #[trigger] final(dst)[i]
                    == old(dst)[i],
            pending is Some <==> self.atomic_free && items_before(
                jobs@,
                self.max_chunks as int,
                jobs.len() as int,
            ) > 0,
            pending matches Some(p) ==> p.covers(
                &self.ell,
                gpairs.gpairs@,
                ridx@,
                jobs@,
                self.n_bins as int,
                self.max_chunks as int,
            ),
            forall|j: int|
                0 <= j < jobs.len() && (pending is None || chunks_of(
                    (#[trigger] jobs[j]).n_ridx as int,
                    self.max_chunks as int,
                ) == 1) ==> final(dst)@.subrange(jobs[j].slot as int, jobs[j].slot + self.n_bins) == histogram(
                    &self.ell,
                    gpairs.gpairs@,
                    jobs[j].rows(ridx@),
                    self.n_bins as int,
                ),
    {
        if self.atomic_free {
            let touch: usize = if has_planes(&self.hardware) {
                0
            } else {
                TOUCH_ROWS as usize
            };
            let pending = build_private_batch(
                &self.ell,
                &gpairs.gpairs,
                ridx,
                jobs,
                dst,
                self.n_bins,
                self.max_chunks,
                touch,
            );
            proof {
                crate::gpu::histogram::lemma_items_before(
                    jobs@,
                    self.max_chunks as int,
                    0,
                    jobs.len() as int,
                );
                if pending is None {
                    assert forall|j: int| 0 <= j < jobs.len() implies chunks_of(
                        (#[trigger] jobs[j]).n_ridx as int,
                        self.max_chunks as int,
                    ) == 1 by {
                        crate::gpu::histogram::lemma_items_before(
                            jobs@,
                            self.max_chunks as int,
                            j,
                            jobs.len() as int,
                        );
                        lemma_ceil_div(jobs[j].n_ridx as int, 4096);
                    }
                }
            }
            return pending;
        }
        self.build_into_batch(gpairs, ridx, jobs, dst);
        None
    }

    /// Accumulate one node's histogram into `dst` at bin offset `slot`.
    pub fn build_into(&self, gpairs: &DeviceGpairs, rows: &DeviceRows, dst: &mut Vec<GradientPairInt64>, slot: u32)
        requires
            self.wf(),
            self.max_blocks_per_group >= 1,
            rows.base + rows.n <= rows.ridx.len(),
            rows.base + rows.n <= u32::MAX,
            rows_ok(&self.ell, gpairs.gpairs@, rows.rows()),
            slot + self.n_bins <= old(dst).len(),
            self.max_chunks * self.n_bins <= u32::MAX,
            rows.n * self.ell.row_stride <= u32::MAX,
            !self.atomic_free ==> forall|b: int| 0 <= b < self.n_bins ==> old(dst)[slot + b] == #[trigger] zero_pair(b),
        ensures
            final(dst).len() == old(dst).len(),
            final(dst)@.subrange(slot as int, slot + self.n_bins) == histogram(
                &self.ell,
                gpairs.gpairs@,
                rows.rows(),
                self.n_bins as int,
            ),
            forall|i: int|
                0 <= i < old(dst).len() && !(slot <= i < slot + self.n_bins) ==> #[trigger] final(dst)[i] == old(dst)[i],
    {
        let job = NodeHistJob { ridx_base: rows.base as u32, n_ridx: rows.n as u32, slot };
        let mut jobs: Vec<NodeHistJob> = Vec::new();
        jobs.push(job);
        proof {
            let mc = self.max_chunks as int;
            assert(jobs@ =~= seq![job]);
            crate::gpu::histogram::lemma_items_before(jobs@, mc, 0, 1);
            let items = items_before(jobs@, mc, 1);
            assert(items * self.n_bins <= mc * self.n_bins) by (nonlinear_arith)
                requires
                    items <= 1 * mc,
                    0 <= self.n_bins,
            ;
            assert(job.rows(rows.ridx@) == rows.rows());
            assert(jobs[0] == job);
            assert(1 * mc <= u32::MAX);
        }
        self.build_into_batch(gpairs, &rows.ridx, jobs.as_slice(), dst);
        proof {
            assert(jobs[0] == job);
            assert forall|i: int|
                0 <= i < old(dst).len() && !(slot <= i < slot + self.n_bins) implies #[trigger] dst[i] == old(dst)[i] by {
                assert(outside_slots(jobs@, self.n_bins as int, i));
            }
        }
    }

    /// One node's histogram.
    pub fn build_to_device(&self, gpairs: &DeviceGpairs, rows: &DeviceRows) -> (hist: DeviceHistogram)
        requires
            self.wf(),
            self.max_blocks_per_group >= 1,
            rows.base + rows.n <= rows.ridx.len(),
            rows.base + rows.n <= u32::MAX,
            rows_ok(&self.ell, gpairs.gpairs@, rows.rows()),
            self.max_chunks * self.n_bins <= u32::MAX,
            rows.n * self.ell.row_stride <= u32::MAX,
        ensures
            hist.bins@ == histogram(&self.ell, gpairs.gpairs@, rows.rows(), self.n_bins as int),
    {
        let mut bins: Vec<GradientPairInt64> = self.zeroed(self.n_bins);
        self.build_into(gpairs, rows, &mut bins, 0);
        assert(bins@.subrange(0, 0 + self.n_bins) =~= bins@);
        DeviceHistogram { bins }
    }

    /// Take gradient pairs and rows, and build one node's histogram.
    pub fn build(&self, gpairs: &[GradientPairInt64], ridx: &[u32]) -> (result: Result<Vec<GradientPairInt64>, Error>)
        requires
            self.wf(),
            self.max_blocks_per_group >= 1,
            gpairs.len() == self.ell.n_rows ==> rows_ok(&self.ell, gpairs@, ridx@),
            self.max_chunks * self.n_bins <= u32::MAX,
            ridx.len() <= u32::MAX,
            ridx.len() * self.ell.row_stride <= u32::MAX,
        ensures
            result is Ok <==> gpairs.len() == self.ell.n_rows,
            result matches Ok(bins) ==> bins@ == histogram(&self.ell, gpairs@, ridx@, self.n_bins as int),
            result matches Err(e) ==> e == (Error::GpairCount { expected: self.ell.n_rows, got: gpairs.len() }),
    {
        match self.upload_gpairs(gpairs) {
            Err(e) => Err(e),
            Ok(pairs) => {
                let rows: DeviceRows = self.upload_rows(ridx);
                assert(rows.rows() =~= ridx@);
                Ok(self.build_to_device(&pairs, &rows).bins)
            },
        }
    }

    /// Subtraction trick: the sibling is the parent minus the built child.
    pub fn subtract(&self, parent: &[GradientPairInt64], built: &[GradientPairInt64]) -> (result: Result<
        Vec<GradientPairInt64>,
        Error,
    >)
        ensures
            result is Ok <==> parent.len() == built.len(),
            result matches Ok(bins) ==> bins@ == sibling(parent@, built@),
            result matches Err(e) ==> e == (Error::HistogramLen { parent: parent.len(), built: built.len() }),
    {
        if parent.len() != built.len() {
            return Err(Error::HistogramLen { parent: parent.len(), built: built.len() });
        }
        let mut out: Vec<GradientPairInt64> = Vec::with_capacity(parent.len());
        let mut i: usize = 0;
        while i < parent.len()
            invariant
                parent.len() == built.len(),
                i <= parent.len(),
                out.len() == i,
                forall|b: int| 0 <= b < i ==> out[b] == #[trigger] sibling(parent@, built@)[b],
            decreases parent.len() - i,
        {
            out.push(parent[i].wrapping_sub(built[i]));
            i += 1;
        }
        assert(out@ =~= sibling(parent@, built@));
        Ok(out)
    }

    /// [`subtract`](Self::subtract) of two histograms of the engine.
    pub fn subtract_to_device(&self, parent: &DeviceHistogram, built: &DeviceHistogram) -> (result: Result<
        DeviceHistogram,
        Error,
    >)
        ensures
            result is Ok <==> parent.bins.len() == built.bins.len(),
            result matches Ok(out) ==> out.bins@ == sibling(parent.bins@, built.bins@),
            result matches Err(e) ==> e == (Error::HistogramLen {
                parent: parent.bins.len(),
                built: built.bins.len(),
            }),
    {
        match self.subtract(parent.bins.as_slice(), built.bins.as_slice()) {
            Ok(bins) => Ok(DeviceHistogram { bins }),
            Err(e) => Err(e),
        }
    }

    /// Subtraction trick within a frontier: slot `out_slot` of `frontier` becomes slot
    /// `parent_slot` of `parent` minus slot `built_slot` of `frontier`.
    pub fn subtract_into(
        &self,
        parent: &Vec<GradientPairInt64>,
        parent_slot: u32,
        frontier: &mut Vec<GradientPairInt64>,
        built_slot: u32,
        out_slot: u32,
    )
        requires
            parent_slot + self.n_bins <= parent.len(),
            built_slot + self.n_bins <= old(frontier).len(),
            out_slot + self.n_bins <= old(frontier).len(),
            apart(built_slot as int, out_slot as int, self.n_bins as int),
        ensures
            final(frontier).len() == old(frontier).len(),
            final(frontier)@.subrange(out_slot as int, out_slot + self.n_bins) == sibling(
                parent@.subrange(parent_slot as int, parent_slot + self.n_bins),
                old(frontier)@.subrange(built_slot as int, built_slot + self.n_bins),
            ),
            forall|i: int|
                0 <= i < old(frontier).len() && !(out_slot <= i < out_slot + self.n_bins)
                    ==> #[trigger] final(frontier)[i] == old(frontier)[i],
    {
        let ghost before = frontier@;
        let slot: Slots = (parent_slot, built_slot, out_slot);
        let none: Option<PendingMerge> = None;
        let ghost slots = seq![slot];
        subtract_batch_kernel(parent, frontier, slot, &none, 0, self.n_bins, Ghost(slots));
        proof {
            assert forall|i: int|
                0 <= i < before.len() && !(out_slot <= i < out_slot + self.n_bins) implies #[trigger] frontier[i] == before[i] by {
                if built_slot <= i < built_slot + self.n_bins {
                    let now = frontier@.subrange(built_slot as int, built_slot + self.n_bins);
                    assert(now[i - built_slot] == before.subrange(built_slot as int, built_slot + self.n_bins)[i
                        - built_slot]);
                }
            }
        }
    }

    /// Subtraction trick for a whole batch.
    ///
    /// `slots` gives `(parent_slot, built_slot, out_slot)` per node, in bins. With a pending
    /// merge, whose jobs are in the same order, the built slots still in pieces are summed
    /// and written on the way.
    pub fn subtract_batch(
        &self,
        parent: &Vec<GradientPairInt64>,
        frontier: &mut Vec<GradientPairInt64>,
        slots: &[Slots],
        pending: &Option<PendingMerge>,
    )
        requires
            slots_ok(slots@, self.n_bins as int, parent.len() as int, old(frontier).len() as int),
            slots.len() > 0 ==> pending_ok(*pending, slots.len() as int, self.n_bins as int),
            slots.len() == 0 && pending is Some ==> pending->0.mergeable(
                self.n_bins as int,
                old(frontier).len() as int,
            ),
        ensures
            final(frontier).len() == old(frontier).len(),
            forall|k: int|
                0 <= k < slots.len() ==> {
                    let (p, b, o) = #[trigger] slots[k];
                    let built = built_bins(*pending, old(frontier)@, slots@, self.n_bins as int, k);
                    &&& final(frontier)@.subrange(b as int, b + self.n_bins) == built
                    &&& final(frontier)@.subrange(o as int, o + self.n_bins) == sibling(
                        parent@.subrange(p as int, p + self.n_bins),
                        built,
                    )
                },
            slots.len() > 0 ==> forall|i: int|
                0 <= i < old(frontier).len() && outside_subtraction(
                    slots@,
                    self.n_bins as int,
                    slots.len() as int,
                    i,
                ) ==> #[trigger] final(frontier)[i] == old(frontier)[i],
            slots.len() == 0 && pending is None ==> final(frontier)@ == old(frontier)@,
            slots.len() == 0 && pending is Some ==> {
                let p = pending->0;
                &&& forall|e: int, b: int|
                    0 <= e < p.chunked.len() && 0 <= b < self.n_bins ==> final(frontier)[p.chunked[e].1 + b]
                        == #[trigger] p.merged(self.n_bins as int, p.chunked[e].0 as int, b)
                &&& forall|i: int|
                    0 <= i < old(frontier).len() && p.outside(self.n_bins as int, p.chunked.len() as int, i)
                        ==> #[trigger] final(frontier)[i] == old(frontier)[i]
            },
    {
        if slots.len() == 0 {
            match pending {
                Some(p) => {
                    merge_pending(p, frontier, self.n_bins);
                },
                None => {},
            }
            return ;
        }
        let ghost before = frontier@;
        let n_bins: usize = self.n_bins;
        let mut k: usize = 0;
        while k < slots.len()
            invariant
                slots_ok(slots@, n_bins as int, parent.len() as int, before.len() as int),
                pending_ok(*pending, slots.len() as int, n_bins as int),
                frontier.len() == before.len(),
                k <= slots.len(),
                forall|j: int|
                    0 <= j < k ==> {
                        let (p, b, o) = #[trigger] slots[j];
                        let built = built_bins(*pending, before, slots@, n_bins as int, j);
                        &&& frontier@.subrange(b as int, b + n_bins) == built
                        &&& frontier@.subrange(o as int, o + n_bins) == sibling(
                            parent@.subrange(p as int, p + n_bins),
                            built,
                        )
                    },
                forall|i: int|
                    0 <= i < before.len() && outside_subtraction(slots@, n_bins as int, k as int, i)
                        ==> #[trigger] frontier[i] == before[i],
            decreases slots.len() - k,
        {
            let ghost was = frontier@;
            let ghost (p0, b0, o0) = slots[k as int];
            proof {
                // This node's slots are as they were.
                assert(was.subrange(b0 as int, b0 + n_bins) =~= before.subrange(b0 as int, b0 + n_bins)) by {
                    assert forall|i: int| b0 <= i < b0 + n_bins implies was[i] == before[i] by {
                        assert forall|j: int| 0 <= j < k implies ({
                            let (_, b, o) = #[trigger] slots[j];
                            &&& !(b <= i < b + n_bins)
                            &&& !(o <= i < o + n_bins)
                        }) by {
                            assert(slots[k as int] == (p0, b0, o0));
                        }
                        assert(outside_subtraction(slots@, n_bins as int, k as int, i));
                    }
                }
            }
            subtract_batch_kernel(parent, frontier, slots[k], pending, k, n_bins, Ghost(slots@));
            proof {
                assert forall|j: int| 0 <= j < k + 1 implies ({
                    let (p, b, o) = #[trigger] slots[j];
                    let built = built_bins(*pending, before, slots@, n_bins as int, j);
                    &&& frontier@.subrange(b as int, b + n_bins) == built
                    &&& frontier@.subrange(o as int, o + n_bins) == sibling(
                        parent@.subrange(p as int, p + n_bins),
                        built,
                    )
                }) by {
                    if j < k {
                        let (p, b, o) = slots[j];
                        assert(slots[k as int] == (p0, b0, o0));
                        assert(frontier@.subrange(b as int, b + n_bins) =~= was.subrange(b as int, b + n_bins));
                        assert(frontier@.subrange(o as int, o + n_bins) =~= was.subrange(o as int, o + n_bins));
                    }
                }
                assert forall|i: int|
                    0 <= i < before.len() && outside_subtraction(slots@, n_bins as int, k + 1, i) implies #[trigger] frontier[i]
                    == before[i] by {
                    assert(slots[k as int] == (p0, b0, o0));
                    assert(outside_subtraction(slots@, n_bins as int, k as int, i));
                    assert(was[i] == before[i]);
                }
            }
            k += 1;
        }
    }

    /// Read a histogram of `n_bins` bins from its device words: four 32-bit words per bin,
    /// `[grad_lo, grad_hi, hess_lo, hess_hi]`.
    pub fn read(&self, words: &[u32], n_bins: usize) -> (result: Result<Vec<GradientPairInt64>, Error>)
        requires
            n_bins * 4 <= usize::MAX,
        ensures
            reads_as(words@, n_bins, result),
    {
        if words.len() != n_bins * 4 {
            return Err(Error::HistogramBins { expected: n_bins, got: words.len() / 4 });
        }
        let mut bins: Vec<GradientPairInt64> = Vec::with_capacity(n_bins);
        let mut b: usize = 0;
        while b < n_bins
            invariant
                words.len() == n_bins * 4,
                b <= n_bins,
                bins.len() == b,
                forall|i: int|
                    0 <= i < b ==> #[trigger] bins[i] == (GradientPairInt64 {
                        grad: joined(words[4 * i], words[4 * i + 1]),
                        hess: joined(words[4 * i + 2], words[4 * i + 3]),
                    }),
            decreases n_bins - b,
        {
            let grad: i64 = join_words(words[4 * b], words[4 * b + 1]);
            let hess: i64 = join_words(words[4 * b + 2], words[4 * b + 3]);
            bins.push(GradientPairInt64 { grad, hess });
            b += 1;
        }
        Ok(bins)
    }

    /// Read a histogram from the bytes that came back from a device. Nothing is read of bytes
    /// that are not a whole number of words.
    pub fn read_bytes(&self, bytes: &[u8], n_bins: usize) -> (read: Option<Result<Vec<GradientPairInt64>, Error>>)
        requires
            n_bins * 4 <= usize::MAX,
        ensures
            read is None <==> bytes@.len() % 4 != 0,
            read matches Some(result) ==> exists|words: Seq<u32>|
                #[trigger] holds_words(bytes@, narrow_words(words), 4) && reads_as(words, n_bins, result),
            read matches Some(result) ==> (result is Ok <==> bytes@.len() == 16 * n_bins),
    {
        if bytes.len() % 4 != 0 {
            return None;
        }
        let words: Vec<u32> = words_of(bytes);
        let result: Result<Vec<GradientPairInt64>, Error> = self.read(words.as_slice(), n_bins);
        assert(holds_words(bytes@, narrow_words(words@), 4) && reads_as(words@, n_bins, result));
        Some(result)
    }
}

/// What a histogram of `n_bins` bins reads as from its words: a pair per bin, or an error where
/// the words are not as many.
pub open spec fn reads_as(words: Seq<u32>, n_bins: usize, result: Result<Vec<GradientPairInt64>, Error>) -> bool {
    match result {
        Ok(bins) => {
            &&& words.len() == n_bins * 4
            &&& bins.len() == n_bins
            &&& forall|b: int|
                0 <= b < n_bins ==> #[trigger] bins[b] == (GradientPairInt64 {
                    grad: joined(words[4 * b], words[4 * b + 1]),
                    hess: joined(words[4 * b + 2], words[4 * b + 3]),
                })
        },
        Err(e) => words.len() != n_bins * 4 && e == (Error::HistogramBins {
            expected: n_bins,
            got: (words.len() / 4) as usize,
        }),
    }
}

/// The pair that an empty bin holds.
pub open spec fn zero_pair(b: int) -> GradientPairInt64 {
    GradientPairInt64 { grad: 0, hess: 0 }
}

/// Rows of the widest of the first `n` jobs.
pub open spec fn widest_job(jobs: Seq<NodeHistJob>, n: int) -> int
    decreases n,
{
    if n <= 0 {
        0
    } else {
        max_of(widest_job(jobs, n - 1), jobs[n - 1].n_ridx as int)
    }
}

/// The subtraction trick is exact: where a parent's rows are those of its two children, the
/// parent's histogram minus one child's is the other's, whatever order the rows are in.
pub proof fn lemma_subtraction_trick(
    ell: &DeviceEllpack,
    gpairs: Seq<GradientPairInt64>,
    parent: Seq<u32>,
    built: Seq<u32>,
    other: Seq<u32>,
    n_bins: int,
)
    requires
        parent.to_multiset() == (built + other).to_multiset(),
    ensures
        sibling(histogram(ell, gpairs, parent, n_bins), histogram(ell, gpairs, built, n_bins)) == histogram(
            ell,
            gpairs,
            other,
            n_bins,
        ),
{
    let p = histogram(ell, gpairs, parent, n_bins);
    let c = histogram(ell, gpairs, built, n_bins);
    let o = histogram(ell, gpairs, other, n_bins);
    assert forall|b: int| 0 <= b < p.len() implies sibling(p, c)[b] == o[b] by {
        let sp = node_sum(ell, gpairs, parent, b);
        let sc = node_sum(ell, gpairs, built, b);
        let so = node_sum(ell, gpairs, other, b);
        lemma_node_sum_order(ell, gpairs, parent, built + other, b);
        lemma_node_sum_concat(ell, gpairs, built, other, b);
        lemma_wrap_plus(sp, sc);
        assert(minus(sp, sc) == so);
    }
    assert(sibling(p, c) =~= o);
}

/// A histogram and its sibling make their parent again, bin by bin.
pub proof fn lemma_sibling(parent: Seq<GradientPairInt64>, built: Seq<GradientPairInt64>, b: int)
    requires
        0 <= b < parent.len(),
    ensures
        sibling(parent, built).len() == parent.len(),
        wrap(crate::gpu::pairs::plus(exact(sibling(parent, built)[b]), exact(built[b]))) == parent[b],
{
    let p = exact(parent[b]);
    let q = exact(built[b]);
    crate::gpu::pairs::lemma_wrap_plus(minus(p, q), q);
    crate::gpu::pairs::lemma_wrap_exact(parent[b]);
    assert(crate::gpu::pairs::plus(minus(p, q), q) == p);
}

/// An empty bin holds nothing.
pub proof fn lemma_zero_pair(b: int)
    ensures
        zero_pair(b).grad == 0 && zero_pair(b).hess == 0,
{
}

/// The budget of bins is what fits the shared memory at sixteen bytes each.
pub proof fn lemma_bin_budget(bytes: usize)
    ensures
        bin_budget(bytes) * 16 <= bytes,
        bytes <= 0xF_FFFF_FFFF ==> bytes < (bin_budget(bytes) + 1) * 16,
{
}

/// A matrix is objected to for its cuts, for its shape or for want of a way to build histograms, in
/// that order, and for nothing else.
pub proof fn lemma_objections(builder: &HistogramBuilder, matrix: &EllpackMatrix)
    ensures
        matrix.cut_ptrs.len() < 2 ==> builder.objection(matrix) == Some(
            Error::InvalidCuts { got: matrix.cut_ptrs.len() },
        ),
        matrix.cut_ptrs.len() >= 2 && !matrix.is_full() ==> (builder.objection(matrix) matches Some(
            Error::MatrixShape { expected, got },
        ) && got == matrix.gidx.len() && (matrix.n_rows * matrix.row_stride <= usize::MAX ==> expected == matrix.n_rows
            * matrix.row_stride)),
        matrix.cut_ptrs.len() >= 2 && matrix.is_full() && builder.global_forced() && !builder.runtime().atomic_add_u32
            ==> builder.objection(matrix) == Some(Error::NoGlobalHistogramPath),
        matrix.cut_ptrs.len() >= 2 && matrix.is_full() && (!builder.global_forced()
            || builder.runtime().atomic_add_u32) ==> builder.objection(matrix) is None,
{
}

/// Bins are gathered in shared memory only where the runtime has atomics and global memory was not
/// forced; in a sparse layout only where all of them fit at once, and in another where those of every
/// single feature do.
pub proof fn lemma_gathers(builder: &HistogramBuilder, matrix: &EllpackMatrix)
    ensures
        builder.global_forced() || !builder.runtime().atomic_add_u32 ==> !builder.gathers(matrix),
        !builder.global_forced() && builder.runtime().atomic_add_u32 && matrix.layout == EllpackLayout::Sparse ==> (
        builder.gathers(matrix) <==> matrix.cut_ptrs@.last() * 16 <= builder.budget()),
        !builder.global_forced() && builder.runtime().atomic_add_u32 && matrix.layout != EllpackLayout::Sparse ==> (
        builder.gathers(matrix) <==> forall|f: int|
            0 <= f < matrix.cut_ptrs.len() - 1 ==> #[trigger] matrix.cut_ptrs[f + 1] - matrix.cut_ptrs[f]
                <= bin_budget(builder.budget())),
        builder.shared_budget() matches Some(bytes) ==> builder.budget() == bytes,
{
}

/// An engine is made as it was asked for: of as many bins as the cuts close, with atomics of 64 bits
/// where they were asked for, or where the runtime has them and nothing was said, and without any
/// where the runtime has none.
pub proof fn lemma_engine_made(builder: &HistogramBuilder, matrix: &EllpackMatrix, engine: &HistogramEngine)
    requires
        builder.makes(matrix, engine),
    ensures
        engine.n_bins == matrix.cut_ptrs@.last(),
        engine.hardware == builder.runtime().hardware,
        builder.native_asked() matches Some(enable) ==> engine.native_i64 == enable,
        builder.native_asked() is None ==> engine.native_i64 == builder.runtime().atomic_add_i64,
        engine.atomic_free <==> !builder.runtime().atomic_add_u32,
        engine.use_shared <==> builder.gathers(matrix) || !builder.runtime().atomic_add_u32,
        engine.max_blocks_per_group == builder.block_cap(),
        engine.smem_words >= SMEM_MIN_WORDS,
        builder.gathers(matrix) ==> engine.smem_words >= 4 * widest_bins(engine.groups@, engine.groups.len() as int),
        engine.max_chunks >= MAX_CHUNKS_PER_NODE,
        !builder.gathers(matrix) ==> engine.groups.len() == 1 && engine.groups[0].start_feature == 0
            && engine.groups[0].start_bin == 0 && engine.groups[0].num_bins == matrix.cut_ptrs@.last(),
{
}

/// The groups share the features out: each is in a group that has no more bins than fit.
pub proof fn lemma_groups_share(cut_ptrs: Seq<u32>, budget: int, groups: Seq<FeatureGroup>, n: int, f: int)
    requires
        widest_groups(cut_ptrs, budget, groups),
        0 <= n <= groups.len(),
        0 <= f < features_before(groups, n),
    ensures
        exists|y: int|
            0 <= y < n && (#[trigger] groups[y]).start_feature <= f < groups[y].start_feature + groups[y].num_features
                && groups[y].num_bins <= budget,
    decreases n,
{
    let last = groups[n - 1];
    assert(follows(groups, n - 1));
    assert(widest_group(cut_ptrs, budget, groups[n - 1]));
    if f < last.start_feature {
        lemma_groups_share(cut_ptrs, budget, groups, n - 1, f);
    }
}

/// The widest of some groups has as many bins as any of them, and the longest of some jobs as many
/// rows as any of them.
pub proof fn lemma_widest(groups: Seq<FeatureGroup>, jobs: Seq<NodeHistJob>, n: int)
    requires
        0 <= n <= groups.len(),
        n <= jobs.len(),
    ensures
        forall|y: int| 0 <= y < n ==> (#[trigger] groups[y]).num_bins <= widest_bins(groups, n),
        n > 0 ==> exists|y: int| 0 <= y < n && (#[trigger] groups[y]).num_bins == widest_bins(groups, n),
        forall|j: int| 0 <= j < n ==> (#[trigger] jobs[j]).n_ridx <= widest_job(jobs, n),
        n > 0 ==> exists|j: int| 0 <= j < n && (#[trigger] jobs[j]).n_ridx == widest_job(jobs, n),
    decreases n,
{
    if n > 0 {
        lemma_widest(groups, jobs, n - 1);
        assert(widest_bins(groups, 0) == 0 && widest_job(jobs, 0) == 0);
        assert(groups[n - 1].num_bins <= widest_bins(groups, n));
        assert(jobs[n - 1].n_ridx <= widest_job(jobs, n));
        if n > 1 {
            let y = choose|y: int| 0 <= y < n - 1 && (#[trigger] groups[y]).num_bins == widest_bins(groups, n - 1);
            let x = choose|x: int| 0 <= x < n - 1 && (#[trigger] jobs[x]).n_ridx == widest_job(jobs, n - 1);
            assert(groups[y].num_bins == widest_bins(groups, n - 1));
            assert(jobs[x].n_ridx == widest_job(jobs, n - 1));
        }
    }
}

/// A histogram is read four words to the bin, the gradient's two and then the hessian's, each with
/// its low word first; it is read exactly where there are as many words as the bins take.
pub proof fn lemma_reads_as(words: Seq<u32>, n_bins: usize, result: Result<Vec<GradientPairInt64>, Error>, b: int)
    requires
        reads_as(words, n_bins, result),
        0 <= b < n_bins,
    ensures
        result is Ok <==> words.len() == 4 * n_bins,
        result is Ok && words[4 * b + 1] < 0x8000_0000 ==> result->Ok_0[b].grad == words[4 * b] + words[4 * b + 1]
            * 0x1_0000_0000,
        result is Ok && words[4 * b + 3] < 0x8000_0000 ==> result->Ok_0[b].hess == words[4 * b + 2] + words[4 * b + 3]
            * 0x1_0000_0000,
        result is Ok && words[4 * b + 1] >= 0x8000_0000 ==> result->Ok_0[b].grad < 0,
{
    if result is Ok {
        crate::gpu::hist_grid::lemma_joined(words[4 * b], words[4 * b + 1], 0, 0);
        crate::gpu::hist_grid::lemma_joined(words[4 * b + 2], words[4 * b + 3], 0, 0);
    }
}

/// A group takes as many features as fit: its bins are those of its features and no more than the
/// budget, and one feature more would go past it.
pub proof fn lemma_group_full(cut_ptrs: Seq<u32>, budget: int, groups: Seq<FeatureGroup>, y: int)
    requires
        widest_groups(cut_ptrs, budget, groups),
        0 <= y < groups.len(),
    ensures
        ({
            let first = groups[y].start_feature as int;
            let end = first + groups[y].num_features;
            &&& first < end < cut_ptrs.len()
            &&& groups[y].start_bin == cut_ptrs[first]
            &&& cut_ptrs[first] + groups[y].num_bins == cut_ptrs[end]
            &&& cut_ptrs[end] - cut_ptrs[first] <= budget
            &&& end + 1 < cut_ptrs.len() ==> cut_ptrs[end + 1] - cut_ptrs[first] > budget
            &&& y + 1 < groups.len() ==> groups[y + 1].start_feature == end
        }),
        groups[0].start_feature == 0,
{
    assert(widest_group(cut_ptrs, budget, groups[y]));
    assert(follows(groups, 0));
    if y + 1 < groups.len() {
        assert(follows(groups, y + 1));
    }
}

} // verus!
