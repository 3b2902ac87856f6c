//! The histograms of a batch's children, side by side in one buffer.
//!
//! Of each pair of children one is built from its rows and the other is the parent's
//! histogram minus it. A node holds one histogram per target, so the buffer is a row of
//! units, each as wide as a histogram: node `k` of the batch has the units
//! `k * n_targets..(k + 1) * n_targets`.

use vstd::prelude::*;

use crate::float_bits::{wide_is_nan, wide_lt, wide_lt_spec, wide_rank};
use crate::gpu::engine::{built_bins, sibling, slots_ok, zero_pair, DeviceGpairs, Slots};
use crate::gpu::expand::ExpandEntry;
use crate::gpu::grower::GpuHistGrower;
use crate::gpu::histogram::{
    apart, histogram, items_before, jobs_ok, lemma_items_before, outside_slots, rows_ok, NodeHistJob, PendingMerge,
};
use crate::gpu::segments::Segment;
use crate::gpu::GradientPairInt64;

verus! {

/// The rows of one child, as a segment of the row index.
pub open spec fn child_seg(parent: ExpandEntry, n_left: u32, right: bool) -> Segment {
    if right {
        ((parent.seg_begin + n_left) as u32, (parent.seg_len - n_left) as u32)
    } else {
        (parent.seg_begin, n_left)
    }
}

/// The right child is the one that is built: it has the smaller hessian sum.
pub open spec fn right_built(parent: ExpandEntry) -> bool {
    wide_lt_spec(parent.right_stats.sum_hess, parent.left_stats.sum_hess)
}

/// Where histogram `t` of node `k` begins in a frontier.
pub open spec fn unit_at(n_targets: int, n_bins: int, k: int, t: int) -> int {
    (k * n_targets + t) * n_bins
}

/// Histogram `t` of the node whose bins begin at `slot`.
pub open spec fn target_bins(hist: Seq<GradientPairInt64>, slot: int, n_bins: int, t: int) -> Seq<GradientPairInt64> {
    hist.subrange(slot + t * n_bins, slot + t * n_bins + n_bins)
}

/// Histogram `t` of node `k` of a frontier.
pub open spec fn unit_bins(hist: Seq<GradientPairInt64>, n_targets: int, n_bins: int, k: int, t: int) -> Seq<
    GradientPairInt64,
> {
    hist.subrange(unit_at(n_targets, n_bins, k, t), unit_at(n_targets, n_bins, k, t) + n_bins)
}

pub proof fn lemma_unit_inside(nodes: int, n_targets: int, n_bins: int, k: int, t: int)
    requires
        0 <= k < nodes,
        0 <= t < n_targets,
        0 <= n_bins,
    ensures
        0 <= unit_at(n_targets, n_bins, k, t),
        unit_at(n_targets, n_bins, k, t) + n_bins <= nodes * n_targets * n_bins,
        unit_at(n_targets, n_bins, k, t) == unit_at(n_targets, n_bins, k, 0) + t * n_bins,
        0 <= t * n_bins,
        0 <= k * n_targets + t < nodes * n_targets,
        0 <= k * n_targets,
{
    let u = k * n_targets + t;
    let all = nodes * n_targets;
    assert(0 <= k * n_targets && u + 1 <= all) by (nonlinear_arith)
        requires
            0 <= k,
            k + 1 <= nodes,
            0 <= t < n_targets,
            u == k * n_targets + t,
            all == nodes * n_targets,
    ;
    assert(0 <= u * n_bins && u * n_bins + n_bins <= all * n_bins) by (nonlinear_arith)
        requires
            0 <= u,
            u + 1 <= all,
            0 <= n_bins,
    ;
    assert(u * n_bins == (k * n_targets + 0) * n_bins + t * n_bins && 0 <= t * n_bins) by (nonlinear_arith)
        requires
            u == k * n_targets + t,
            0 <= t,
            0 <= n_bins,
    ;
}

pub proof fn lemma_units_apart(n_targets: int, n_bins: int, k: int, t: int, l: int, s: int)
    requires
        0 <= t < n_targets,
        0 <= s < n_targets,
        0 <= n_bins,
        k != l || t != s,
    ensures
        apart(unit_at(n_targets, n_bins, k, t), unit_at(n_targets, n_bins, l, s), n_bins),
{
    let u = k * n_targets + t;
    let v = l * n_targets + s;
    assert(u != v) by (nonlinear_arith)
        requires
            u == k * n_targets + t,
            v == l * n_targets + s,
            0 <= t < n_targets,
            0 <= s < n_targets,
            k != l || t != s,
    ;
    if u < v {
        assert(u * n_bins + n_bins <= v * n_bins) by (nonlinear_arith)
            requires
                u + 1 <= v,
                0 <= n_bins,
        ;
    } else {
        assert(v * n_bins + n_bins <= u * n_bins) by (nonlinear_arith)
            requires
                v + 1 <= u,
                0 <= n_bins,
        ;
    }
}

/// The children of the planned nodes of a batch can be built.
pub open spec fn plan_ok(
    grower: &GpuHistGrower,
    batch: Seq<ExpandEntry>,
    plan: Seq<usize>,
    counts: Seq<u32>,
    gpairs: Seq<DeviceGpairs>,
    ridx: Seq<u32>,
) -> bool {
    &&& counts.len() == batch.len()
    &&& plan.len() > 0
    &&& gpairs.len() == grower.n_targets
    &&& grower.level_fits(plan.len() as int)
    &&& forall|i: int| 0 <= i < plan.len() ==> #[trigger] plan[i] < batch.len()
    &&& forall|i: int| 0 <= i < plan.len() ==> node_fits(grower, batch[(#[trigger] plan[i]) as int], counts[plan[i] as int], ridx)
    &&& forall|i: int, t: int|
        0 <= i < plan.len() && 0 <= t < grower.n_targets ==> rows_ok(
            &grower.engine.ell,
            (#[trigger] gpairs[t]).gpairs@,
            parent_rows(batch[(#[trigger] plan[i]) as int], ridx),
        )
    &&& forall|i: int| 0 <= i < plan.len() ==> batch[(#[trigger] plan[i]) as int].hist@ == batch[plan[0] as int].hist@
}

/// The rows in a node's segment.
pub open spec fn parent_rows(parent: ExpandEntry, ridx: Seq<u32>) -> Seq<u32> {
    ridx.subrange(parent.seg_begin as int, parent.seg_begin + parent.seg_len)
}

/// The rows in a segment.
pub open spec fn seg_rows(seg: Segment, ridx: Seq<u32>) -> Seq<u32> {
    ridx.subrange(seg.0 as int, seg.0 + seg.1)
}

pub open spec fn node_fits(grower: &GpuHistGrower, parent: ExpandEntry, n_left: u32, ridx: Seq<u32>) -> bool {
    &&& n_left <= parent.seg_len
    &&& parent.seg_begin + parent.seg_len <= ridx.len()
    &&& parent.seg_begin + parent.seg_len <= u32::MAX
    &&& parent.seg_len <= grower.n_rows
    &&& parent.slot + grower.n_targets * grower.n_bins <= parent.hist@.len()
    &&& parent.slot + grower.n_targets * grower.n_bins <= u32::MAX
}

/// Build job `t` of a parent's built child, for the node `k` of the frontier.
pub open spec fn job_of(grower: &GpuHistGrower, parent: ExpandEntry, n_left: u32, k: int, t: int) -> NodeHistJob {
    let seg = child_seg(parent, n_left, right_built(parent));
    NodeHistJob {
        ridx_base: seg.0,
        n_ridx: seg.1,
        slot: unit_at(grower.n_targets as int, grower.n_bins as int, k, t) as u32,
    }
}

impl GpuHistGrower {
    /// A batch of `m` splits is small enough for 32-bit slots and work tables.
    pub open spec fn level_fits(&self, m: int) -> bool {
        &&& 2 * m * self.n_targets * self.n_bins <= u32::MAX
        &&& m * self.engine.max_chunks <= u32::MAX
        &&& m * self.engine.max_chunks * self.n_bins <= u32::MAX
    }

    /// There is a bin.
    pub proof fn lemma_some_bins(&self)
        requires
            self.wf(),
        ensures
            self.n_bins >= 1,
    {
        assert(self.cuts.cut_ptrs[0] < self.cuts.cut_ptrs[self.n_features as int]);
    }

    /// A batch that fits has few pairs.
    pub proof fn lemma_level_pairs(&self, m: int)
        requires
            self.wf(),
            self.level_fits(m),
            0 <= m,
        ensures
            2 * m <= u32::MAX,
            m * self.n_targets <= u32::MAX,
            self.n_bins >= 1,
    {
        self.lemma_some_bins();
        let nt = self.n_targets as int;
        let nb = self.n_bins as int;
        assert(2 * m <= 2 * m * nt && 0 <= m * nt && 2 * m * nt == 2 * (m * nt)) by (nonlinear_arith)
            requires
                0 <= m,
                1 <= nt,
        ;
        let all = 2 * m * nt;
        assert(all <= all * nb) by (nonlinear_arith)
            requires
                0 <= all,
                1 <= nb,
        ;
    }

    /// The histogram jobs of target `t`: one per planned node, into the built child's slot.
    fn jobs_for(&self, batch: &Vec<ExpandEntry>, plan: &Vec<usize>, counts: &Vec<u32>, t: usize) -> (jobs: Vec<NodeHistJob>)
        requires
            self.wf(),
            counts.len() == batch.len(),
            self.level_fits(plan.len() as int),
            forall|i: int| 0 <= i < plan.len() ==> #[trigger] plan[i] < batch.len(),
            forall|i: int|
                0 <= i < plan.len() ==> counts[(#[trigger] plan[i]) as int] <= batch[plan[i] as int].seg_len
                    && batch[plan[i] as int].seg_begin + batch[plan[i] as int].seg_len <= u32::MAX,
            t < self.n_targets,
        ensures
            jobs.len() == plan.len(),
            forall|i: int|
                0 <= i < plan.len() ==> #[trigger] jobs[i] == job_of(
                    self,
                    batch[plan[i] as int],
                    counts[plan[i] as int],
                    2 * i,
                    t as int,
                ),
    {
        let mut jobs: Vec<NodeHistJob> = Vec::with_capacity(plan.len());
        let mut i: usize = 0;
        while i < plan.len()
            invariant
                self.wf(),
                counts.len() == batch.len(),
                self.level_fits(plan.len() as int),
                forall|i: int| 0 <= i < plan.len() ==> #[trigger] plan[i] < batch.len(),
                forall|i: int|
                    0 <= i < plan.len() ==> counts[(#[trigger] plan[i]) as int] <= batch[plan[i] as int].seg_len
                        && batch[plan[i] as int].seg_begin + batch[plan[i] as int].seg_len <= u32::MAX,
                t < self.n_targets,
                i <= plan.len(),
                jobs.len() == i,
                forall|k: int|
                    0 <= k < i ==> #[trigger] jobs[k] == job_of(
                        self,
                        batch[plan[k] as int],
                        counts[plan[k] as int],
                        2 * k,
                        t as int,
                    ),
            decreases plan.len() - i,
        {
            proof {
                self.lemma_level_pairs(plan.len() as int);
            }
            let pos: usize = plan[i];
            let parent: &ExpandEntry = &batch[pos];
            let n_left: u32 = counts[pos];
            let slot: u32 = self.unit_slot(plan.len(), 2 * i, t);
            // Build the child with the smaller hessian sum; the other is subtracted.
            let right: bool = wide_lt(parent.right_stats.sum_hess, parent.left_stats.sum_hess);
            jobs.push(
                if right {
                    NodeHistJob { ridx_base: parent.seg_begin + n_left, n_ridx: parent.seg_len - n_left, slot }
                } else {
                    NodeHistJob { ridx_base: parent.seg_begin, n_ridx: n_left, slot }
                },
            );
            i += 1;
        }
        jobs
    }

    /// Where histogram `t` of node `k` of a frontier of `m` pairs begins.
    pub(crate) fn unit_slot(&self, m: usize, k: usize, t: usize) -> (slot: u32)
        requires
            self.wf(),
            self.level_fits(m as int),
            k < 2 * m,
            t < self.n_targets,
        ensures
            slot == unit_at(self.n_targets as int, self.n_bins as int, k as int, t as int),
            slot + self.n_bins <= 2 * m * self.n_targets * self.n_bins,
    {
        proof {
            let nt = self.n_targets as int;
            let nb = self.n_bins as int;
            self.lemma_some_bins();
            lemma_unit_inside(2 * m, nt, nb, k as int, t as int);
            let all = 2 * m * nt;
            assert(all <= all * nb) by (nonlinear_arith)
                requires
                    1 <= nb,
                    0 <= all,
            ;
        }
        ((k * self.n_targets + t) * self.n_bins) as u32
    }

    /// The subtractions of a batch: one per planned node and target.
    fn slots_for(&self, batch: &Vec<ExpandEntry>, plan: &Vec<usize>) -> (slots: Vec<Slots>)
        requires
            self.wf(),
            self.level_fits(plan.len() as int),
            forall|i: int| 0 <= i < plan.len() ==> #[trigger] plan[i] < batch.len(),
            forall|i: int|
                0 <= i < plan.len() ==> batch[(#[trigger] plan[i]) as int].slot + self.n_targets * self.n_bins
                    <= u32::MAX,
        ensures
            slots.len() == plan.len() * self.n_targets,
            forall|i: int, t: int|
                0 <= i < plan.len() && 0 <= t < self.n_targets ==> #[trigger] slots[slot_index(
                    self.n_targets as int,
                    i,
                    t,
                )] == slots_of(self, batch[plan[i] as int], i, t),
    {
        let ghost nt = self.n_targets as int;
        let ghost nb = self.n_bins as int;
        let mut slots: Vec<Slots> = Vec::with_capacity(plan.len());
        let mut i: usize = 0;
        while i < plan.len()
            invariant
                self.wf(),
                self.level_fits(plan.len() as int),
                forall|i: int| 0 <= i < plan.len() ==> #[trigger] plan[i] < batch.len(),
                forall|i: int|
                    0 <= i < plan.len() ==> batch[(#[trigger] plan[i]) as int].slot + self.n_targets * self.n_bins
                        <= u32::MAX,
                nt == self.n_targets,
                nb == self.n_bins,
                i <= plan.len(),
                slots.len() == i * self.n_targets,
                forall|k: int, t: int|
                    0 <= k < i && 0 <= t < nt ==> #[trigger] slots[slot_index(nt, k, t)] == slots_of(
                        self,
                        batch[plan[k] as int],
                        k,
                        t,
                    ),
            decreases plan.len() - i,
        {
            let parent: u32 = batch[plan[i]].slot;
            let mut t: usize = 0;
            while t < self.n_targets
                invariant
                    self.wf(),
                    self.level_fits(plan.len() as int),
                    forall|i: int| 0 <= i < plan.len() ==> #[trigger] plan[i] < batch.len(),
                    nt == self.n_targets,
                    nb == self.n_bins,
                    i < plan.len(),
                    t <= self.n_targets,
                    parent == batch[plan[i as int] as int].slot,
                    parent + self.n_targets * self.n_bins <= u32::MAX,
                    slots.len() == i * self.n_targets + t,
                    forall|k: int, s: int|
                        0 <= k < i && 0 <= s < nt ==> #[trigger] slots[slot_index(nt, k, s)] == slots_of(
                            self,
                            batch[plan[k] as int],
                            k,
                            s,
                        ),
                    forall|s: int|
                        0 <= s < t ==> #[trigger] slots[slot_index(nt, i as int, s)] == slots_of(
                            self,
                            batch[plan[i as int] as int],
                            i as int,
                            s,
                        ),
                decreases self.n_targets - t,
            {
                let ghost was = slots@;
                proof {
                    assert(0 <= t * nb && t * nb + nb <= nt * nb) by (nonlinear_arith)
                        requires
                            0 <= t,
                            t + 1 <= nt,
                            1 <= nb || nb == 0,
                    ;
                }
                proof {
                    self.lemma_level_pairs(plan.len() as int);
                }
                let built: u32 = self.unit_slot(plan.len(), 2 * i, t);
                let other: u32 = self.unit_slot(plan.len(), 2 * i + 1, t);
                slots.push((parent + (t * self.n_bins) as u32, built, other));
                proof {
                    assert forall|k: int, s: int| 0 <= k < i && 0 <= s < nt implies #[trigger] slots[slot_index(nt, k, s)]
                        == slots_of(self, batch[plan[k] as int], k, s) by {
                        lemma_slot_index(nt, i as int, k, s);
                        assert(was[slot_index(nt, k, s)] == slots_of(self, batch[plan[k] as int], k, s));
                    }
                    assert forall|s: int| 0 <= s < t + 1 implies #[trigger] slots[slot_index(nt, i as int, s)] == slots_of(
                        self,
                        batch[plan[i as int] as int],
                        i as int,
                        s,
                    ) by {
                        assert(0 <= i * nt) by (nonlinear_arith)
                            requires
                                0 <= i,
                                0 <= nt,
                        ;
                        if s < t {
                            assert(was[slot_index(nt, i as int, s)] == slots_of(
                                self,
                                batch[plan[i as int] as int],
                                i as int,
                                s,
                            ));
                        }
                    }
                }
                t += 1;
            }
            assert((i + 1) * nt == i * nt + nt) by (nonlinear_arith);
            i += 1;
        }
        slots
    }
}

/// Where the subtraction of target `t` of pair `i` stands in the list.
pub open spec fn slot_index(n_targets: int, i: int, t: int) -> int {
    i * n_targets + t
}

proof fn lemma_slot_index(n_targets: int, m: int, i: int, t: int)
    requires
        0 <= i < m,
        0 <= t < n_targets,
    ensures
        0 <= slot_index(n_targets, i, t) < m * n_targets,
{
    assert(0 <= i * n_targets + t < m * n_targets) by (nonlinear_arith)
        requires
            0 <= i,
            i + 1 <= m,
            0 <= t < n_targets,
    ;
}

/// The parent's, the built child's and the sibling's histogram `t` of pair `i`.
pub open spec fn slots_of(grower: &GpuHistGrower, parent: ExpandEntry, i: int, t: int) -> Slots {
    (
        (parent.slot + t * grower.n_bins) as u32,
        unit_at(grower.n_targets as int, grower.n_bins as int, 2 * i, t) as u32,
        unit_at(grower.n_targets as int, grower.n_bins as int, 2 * i + 1, t) as u32,
    )
}

/// Histogram `t` of the built child of pair `i`.
pub open spec fn built_unit(hist: Seq<GradientPairInt64>, n_targets: int, n_bins: int, i: int, t: int) -> Seq<
    GradientPairInt64,
> {
    unit_bins(hist, n_targets, n_bins, 2 * i, t)
}

/// Histogram `t` of the other child of pair `i`.
pub open spec fn other_unit(hist: Seq<GradientPairInt64>, n_targets: int, n_bins: int, i: int, t: int) -> Seq<
    GradientPairInt64,
> {
    unit_bins(hist, n_targets, n_bins, 2 * i + 1, t)
}

/// Histogram `t` of the built child of pair `i` is zero.
spec fn zero_unit(hist: Seq<GradientPairInt64>, n_targets: int, n_bins: int, i: int, t: int) -> bool {
    forall|b: int| 0 <= b < n_bins ==> hist[unit_at(n_targets, n_bins, 2 * i, t) + b] == #[trigger] zero_pair(b)
}

/// The rows of the built child.
pub open spec fn built_rows(parent: ExpandEntry, n_left: u32, ridx: Seq<u32>) -> Seq<u32> {
    seg_rows(child_seg(parent, n_left, right_built(parent)), ridx)
}

/// The first `n` targets' histograms of the built children are those of their rows.
spec fn built_upto(
    grower: &GpuHistGrower,
    batch: Seq<ExpandEntry>,
    plan: Seq<usize>,
    counts: Seq<u32>,
    gpairs: Seq<DeviceGpairs>,
    ridx: Seq<u32>,
    hist: Seq<GradientPairInt64>,
    n: int,
) -> bool {
    forall|i: int, t: int|
        0 <= i < plan.len() && 0 <= t < n ==> #[trigger] built_unit(
            hist,
            grower.n_targets as int,
            grower.n_bins as int,
            i,
            t,
        ) == histogram(
            &grower.engine.ell,
            gpairs[t].gpairs@,
            built_rows(batch[plan[i] as int], counts[plan[i] as int], ridx),
            grower.n_bins as int,
        )
}

impl GpuHistGrower {
    /// One target's jobs can be built.
    proof fn lemma_jobs_ok(
        &self,
        batch: Seq<ExpandEntry>,
        plan: Seq<usize>,
        counts: Seq<u32>,
        gpairs: Seq<DeviceGpairs>,
        ridx: Seq<u32>,
        jobs: Seq<NodeHistJob>,
        t: int,
    )
        requires
            self.wf(),
            plan_ok(self, batch, plan, counts, gpairs, ridx),
            0 <= t < self.n_targets,
            jobs.len() == plan.len(),
            forall|i: int|
                0 <= i < plan.len() ==> #[trigger] jobs[i] == job_of(
                    self,
                    batch[plan[i] as int],
                    counts[plan[i] as int],
                    2 * i,
                    t,
                ),
        ensures
            self.engine.batch_fits(jobs),
            jobs_ok(
                &self.engine.ell,
                gpairs[t].gpairs@,
                ridx,
                jobs,
                self.n_bins as int,
                2 * plan.len() * self.n_targets * self.n_bins,
            ),
            forall|i: int|
                0 <= i < plan.len() ==> (#[trigger] jobs[i]).rows(ridx) == built_rows(
                    batch[plan[i] as int],
                    counts[plan[i] as int],
                    ridx,
                ) && jobs[i].slot == unit_at(self.n_targets as int, self.n_bins as int, 2 * i, t),
    {
        let nt = self.n_targets as int;
        let nb = self.n_bins as int;
        let m = plan.len() as int;
        let mc = self.engine.max_chunks as int;
        lemma_items_before(jobs, mc, 0, m);
        let items = items_before(jobs, mc, m);
        assert(items * nb <= m * mc * nb) by (nonlinear_arith)
            requires
                items <= m * mc,
                0 <= nb,
        ;
        assert forall|i: int| 0 <= i < jobs.len() implies {
            let job = #[trigger] jobs[i];
            &&& job.n_ridx * self.engine.ell.row_stride <= u32::MAX
            &&& job.ridx_base + job.n_ridx <= ridx.len()
            &&& job.ridx_base + job.n_ridx <= u32::MAX
            &&& rows_ok(&self.engine.ell, gpairs[t].gpairs@, job.rows(ridx))
            &&& job.slot + nb <= 2 * m * nt * nb
            &&& job.rows(ridx) == built_rows(batch[plan[i] as int], counts[plan[i] as int], ridx)
            &&& job.slot == unit_at(nt, nb, 2 * i, t)
        } by {
            let job = jobs[i];
            let parent = batch[plan[i] as int];
            let n_left = counts[plan[i] as int];
            assert(node_fits(self, parent, n_left, ridx));
            lemma_unit_inside(2 * m, nt, nb, 2 * i, t);
            let n = job.n_ridx as int;
            let stride = self.engine.ell.row_stride as int;
            assert(n * stride <= self.n_rows * stride) by (nonlinear_arith)
                requires
                    n <= self.n_rows,
                    0 <= stride,
            ;
            assert(rows_ok(&self.engine.ell, gpairs[t].gpairs@, parent_rows(parent, ridx)));
            assert forall|k: int| 0 <= k < job.rows(ridx).len() implies crate::gpu::row_partitioner::has_row(
                &self.engine.ell,
                #[trigger] job.rows(ridx)[k],
            ) && job.rows(ridx)[k] < gpairs[t].gpairs@.len() by {
                assert(job.rows(ridx)[k] == parent_rows(parent, ridx)[job.ridx_base - parent.seg_begin + k]);
            }
        }
        assert forall|i: int, j: int| 0 <= i < j < jobs.len() implies apart(
            (#[trigger] jobs[i]).slot as int,
            (#[trigger] jobs[j]).slot as int,
            nb,
        ) by {
            lemma_units_apart(nt, nb, 2 * i, t, 2 * j, t);
        }
    }

    /// The histograms of a batch's children: the built ones from their rows, the others by
    /// subtraction.
    pub(crate) fn fill_frontier(
        &self,
        batch: &Vec<ExpandEntry>,
        plan: &Vec<usize>,
        counts: &Vec<u32>,
        gpairs: &Vec<DeviceGpairs>,
        ridx: &Vec<u32>,
    ) -> (frontier: Vec<GradientPairInt64>)
        requires
            self.wf(),
            plan_ok(self, batch@, plan@, counts@, gpairs@, ridx@),
        ensures
            frontier.len() == 2 * plan.len() * self.n_targets * self.n_bins,
            forall|i: int, t: int|
                0 <= i < plan.len() && 0 <= t < self.n_targets ==> #[trigger] built_unit(
                    frontier@,
                    self.n_targets as int,
                    self.n_bins as int,
                    i,
                    t,
                ) == histogram(
                    &self.engine.ell,
                    gpairs[t].gpairs@,
                    built_rows(batch[plan[i] as int], counts[plan[i] as int], ridx@),
                    self.n_bins as int,
                ),
            forall|i: int, t: int|
                0 <= i < plan.len() && 0 <= t < self.n_targets ==> #[trigger] other_unit(
                    frontier@,
                    self.n_targets as int,
                    self.n_bins as int,
                    i,
                    t,
                ) == sibling(
                    target_bins(
                        batch[plan[i] as int].hist@,
                        batch[plan[i] as int].slot as int,
                        self.n_bins as int,
                        t,
                    ),
                    histogram(
                        &self.engine.ell,
                        gpairs[t].gpairs@,
                        built_rows(batch[plan[i] as int], counts[plan[i] as int], ridx@),
                        self.n_bins as int,
                    ),
                ),
    {
        let m: usize = plan.len();
        let ghost nt = self.n_targets as int;
        let ghost nb = self.n_bins as int;
        proof {
            self.lemma_level_pairs(m as int);
            assert(2 * m * nt == 2 * (m * nt)) by (nonlinear_arith);
            let all = 2 * m * nt;
            assert(all <= all * nb) by (nonlinear_arith)
                requires
                    0 <= all,
                    1 <= nb,
            ;
        }
        let mut frontier: Vec<GradientPairInt64> = self.engine.zeroed(2 * m * self.n_targets * self.n_bins);
        proof {
            assert forall|i: int, t: int| 0 <= i < m && 0 <= t < nt implies #[trigger] zero_unit(
                frontier@,
                nt,
                nb,
                i,
                t,
            ) by {
                lemma_unit_inside(2 * m, nt, nb, 2 * i, t);
                assert forall|b: int| 0 <= b < nb implies frontier[unit_at(nt, nb, 2 * i, t) + b] == #[trigger] zero_pair(
                    b,
                ) by {
                    assert(zero_pair(unit_at(nt, nb, 2 * i, t) + b) == zero_pair(b));
                }
            }
        }
        let mut t: usize = 0;
        while t < self.n_targets
            invariant
                self.wf(),
                plan_ok(self, batch@, plan@, counts@, gpairs@, ridx@),
                m == plan.len(),
                nt == self.n_targets,
                nb == self.n_bins,
                t <= self.n_targets,
                frontier.len() == 2 * m * self.n_targets * self.n_bins,
                built_upto(self, batch@, plan@, counts@, gpairs@, ridx@, frontier@, t as int),
                forall|i: int, s: int|
                    0 <= i < m && t <= s < nt ==> #[trigger] zero_unit(frontier@, nt, nb, i, s),
            decreases self.n_targets - t,
        {
            let ghost was = frontier@;
            proof {
                assert forall|i: int| 0 <= i < plan.len() implies counts[(#[trigger] plan[i]) as int]
                    <= batch[plan[i] as int].seg_len && batch[plan[i] as int].seg_begin + batch[plan[i] as int].seg_len
                    <= u32::MAX by {
                    assert(node_fits(self, batch[plan[i] as int], counts[plan[i] as int], ridx@));
                }
            }
            let jobs: Vec<NodeHistJob> = self.jobs_for(batch, plan, counts, t);
            proof {
                self.lemma_jobs_ok(batch@, plan@, counts@, gpairs@, ridx@, jobs@, t as int);
                assert forall|j: int, b: int| 0 <= j < jobs.len() && 0 <= b < nb implies frontier[(#[trigger] jobs[j]).slot
                    + b] == (#[trigger] zero_pair(b)) by {
                    assert(zero_unit(frontier@, nt, nb, j, t as int));
                }
                assert(self.engine.slots_zero(jobs@, frontier@));
            }
            self.engine.build_into_batch(&gpairs[t], ridx, jobs.as_slice(), &mut frontier);
            proof {
                assert forall|i: int, s: int| 0 <= i < m && 0 <= s < nt && s != t implies #[trigger] unit_bins(
                    frontier@,
                    nt,
                    nb,
                    2 * i,
                    s,
                ) == unit_bins(was, nt, nb, 2 * i, s) by {
                    lemma_unit_inside(2 * m, nt, nb, 2 * i, s);
                    let at = unit_at(nt, nb, 2 * i, s);
                    assert forall|k: int| at <= k < at + nb implies #[trigger] frontier[k] == was[k] by {
                        assert forall|j: int| 0 <= j < jobs.len() implies !((#[trigger] jobs[j]).slot <= k < jobs[j].slot
                            + nb) by {
                            lemma_units_apart(nt, nb, 2 * i, s, 2 * j, t as int);
                        }
                        assert(outside_slots(jobs@, nb, k));
                    }
                    assert(unit_bins(frontier@, nt, nb, 2 * i, s) =~= unit_bins(was, nt, nb, 2 * i, s));
                }
                assert forall|i: int, s: int| 0 <= i < plan.len() && 0 <= s < t + 1 implies #[trigger] built_unit(
                    frontier@,
                    nt,
                    nb,
                    i,
                    s,
                ) == histogram(
                    &self.engine.ell,
                    gpairs[s].gpairs@,
                    built_rows(batch[plan[i] as int], counts[plan[i] as int], ridx@),
                    nb,
                ) by {
                    if s < t {
                        assert(unit_bins(frontier@, nt, nb, 2 * i, s) == unit_bins(was, nt, nb, 2 * i, s));
                        assert(built_unit(was, nt, nb, i, s) == unit_bins(was, nt, nb, 2 * i, s));
                    } else {
                        assert(jobs[i].rows(ridx@) == built_rows(batch[plan[i] as int], counts[plan[i] as int], ridx@));
                    }
                }
                assert forall|i: int, s: int| 0 <= i < m && t + 1 <= s < nt implies #[trigger] zero_unit(
                    frontier@,
                    nt,
                    nb,
                    i,
                    s,
                ) by {
                    assert(zero_unit(was, nt, nb, i, s));
                    assert(unit_bins(frontier@, nt, nb, 2 * i, s) == unit_bins(was, nt, nb, 2 * i, s));
                    lemma_unit_inside(2 * m, nt, nb, 2 * i, s);
                    let at = unit_at(nt, nb, 2 * i, s);
                    assert forall|b: int| 0 <= b < nb implies frontier[at + b] == #[trigger] zero_pair(b) by {
                        assert(unit_bins(frontier@, nt, nb, 2 * i, s)[b] == unit_bins(was, nt, nb, 2 * i, s)[b]);
                        assert(was[at + b] == zero_pair(b));
                    }
                }
            }
            t += 1;
        }
        proof {
            assert forall|i: int| 0 <= i < plan.len() implies batch[(#[trigger] plan[i]) as int].slot + self.n_targets
                * self.n_bins <= u32::MAX by {
                assert(node_fits(self, batch[plan[i] as int], counts[plan[i] as int], ridx@));
            }
        }
        let slots: Vec<Slots> = self.slots_for(batch, plan);
        let none: Option<PendingMerge> = None;
        let ghost built = frontier@;
        proof {
            self.lemma_slots_ok(batch@, plan@, counts@, gpairs@, ridx@, slots@);
            lemma_slot_index(nt, m as int, 0, 0);
        }
        self.engine.subtract_batch(&*batch[plan[0]].hist, &mut frontier, slots.as_slice(), &none);
        proof {
            assert forall|i: int, t: int| 0 <= i < m && 0 <= t < nt implies #[trigger] built_unit(
                frontier@,
                nt,
                nb,
                i,
                t,
            ) == built_unit(built, nt, nb, i, t) && other_unit(frontier@, nt, nb, i, t) == sibling(
                target_bins(batch[plan[i] as int].hist@, batch[plan[i] as int].slot as int, nb, t),
                built_unit(built, nt, nb, i, t),
            ) by {
                let x = slot_index(nt, i, t);
                lemma_slot_index(nt, m as int, i, t);
                assert(slots[x] == slots_of(self, batch[plan[i] as int], i, t));
                lemma_unit_inside(2 * m, nt, nb, 2 * i, t);
                lemma_unit_inside(2 * m, nt, nb, 2 * i + 1, t);
                assert(node_fits(self, batch[plan[i] as int], counts[plan[i] as int], ridx@));
                assert(0 <= t * nb && t * nb + nb <= nt * nb) by (nonlinear_arith)
                    requires
                        0 <= t,
                        t + 1 <= nt,
                        0 <= nb,
                ;
                assert(built_bins(none, built, slots@, nb, x) == built_unit(built, nt, nb, i, t));
                assert(batch[plan[i] as int].hist@ == batch[plan[0] as int].hist@);
            }
            assert forall|i: int, t: int| 0 <= i < m && 0 <= t < nt implies #[trigger] other_unit(
                frontier@,
                nt,
                nb,
                i,
                t,
            ) == sibling(
                target_bins(batch[plan[i] as int].hist@, batch[plan[i] as int].slot as int, nb, t),
                histogram(
                    &self.engine.ell,
                    gpairs[t].gpairs@,
                    built_rows(batch[plan[i] as int], counts[plan[i] as int], ridx@),
                    nb,
                ),
            ) by {
                assert(built_unit(frontier@, nt, nb, i, t) == built_unit(built, nt, nb, i, t));
            }
        }
        frontier
    }

    /// The subtractions keep out of each other's way.
    proof fn lemma_slots_ok(
        &self,
        batch: Seq<ExpandEntry>,
        plan: Seq<usize>,
        counts: Seq<u32>,
        gpairs: Seq<DeviceGpairs>,
        ridx: Seq<u32>,
        slots: Seq<Slots>,
    )
        requires
            self.wf(),
            plan_ok(self, batch, plan, counts, gpairs, ridx),
            slots.len() == plan.len() * self.n_targets,
            forall|i: int, t: int|
                0 <= i < plan.len() && 0 <= t < self.n_targets ==> #[trigger] slots[slot_index(
                    self.n_targets as int,
                    i,
                    t,
                )] == slots_of(self, batch[plan[i] as int], i, t),
        ensures
            slots_ok(
                slots,
                self.n_bins as int,
                batch[plan[0] as int].hist@.len() as int,
                2 * plan.len() * self.n_targets * self.n_bins,
            ),
    {
        let nt = self.n_targets as int;
        let nb = self.n_bins as int;
        let m = plan.len() as int;
        let parent_len = batch[plan[0] as int].hist@.len() as int;
        let all = 2 * m * nt * nb;
        assert forall|x: int| 0 <= x < slots.len() implies {
            let (p, b, o) = #[trigger] slots[x];
            &&& p + nb <= parent_len
            &&& b + nb <= all
            &&& o + nb <= all
            &&& apart(b as int, o as int, nb)
            &&& b == unit_at(nt, nb, 2 * (x / nt), x % nt)
            &&& o == unit_at(nt, nb, 2 * (x / nt) + 1, x % nt)
            &&& 0 <= x / nt < m
            &&& 0 <= x % nt < nt
        } by {
            let i = x / nt;
            let t = x % nt;
            vstd::arithmetic::div_mod::lemma_fundamental_div_mod(x, nt);
            assert(0 <= i < m && 0 <= t < nt && i * nt + t == x) by (nonlinear_arith)
                requires
                    x == nt * i + t,
                    0 <= x < m * nt,
                    nt >= 1,
                    t == x % nt,
            ;
            assert(slots[slot_index(nt, i, t)] == slots_of(self, batch[plan[i] as int], i, t));
            lemma_unit_inside(2 * m, nt, nb, 2 * i, t);
            lemma_unit_inside(2 * m, nt, nb, 2 * i + 1, t);
            lemma_units_apart(nt, nb, 2 * i, t, 2 * i + 1, t);
            assert(node_fits(self, batch[plan[i] as int], counts[plan[i] as int], ridx));
            assert(batch[plan[i] as int].hist@ == batch[plan[0] as int].hist@);
            assert(0 <= t * nb && t * nb + nb <= nt * nb) by (nonlinear_arith)
                requires
                    0 <= t,
                    t + 1 <= nt,
                    0 <= nb,
            ;
        }
        assert forall|x: int, y: int| 0 <= x < slots.len() && 0 <= y < slots.len() && x != y implies {
            let (_, b, o) = #[trigger] slots[x];
            let (_, c, q) = #[trigger] slots[y];
            &&& apart(b as int, c as int, nb)
            &&& apart(b as int, q as int, nb)
            &&& apart(o as int, q as int, nb)
        } by {
            let (_, b, o) = slots[x];
            let (_, c, q) = slots[y];
            let i = x / nt;
            let t = x % nt;
            let j = y / nt;
            let s = y % nt;
            vstd::arithmetic::div_mod::lemma_fundamental_div_mod(x, nt);
            vstd::arithmetic::div_mod::lemma_fundamental_div_mod(y, nt);
            assert(i != j || t != s);
            lemma_units_apart(nt, nb, 2 * i, t, 2 * j, s);
            lemma_units_apart(nt, nb, 2 * i, t, 2 * j + 1, s);
            lemma_units_apart(nt, nb, 2 * i + 1, t, 2 * j + 1, s);
        }
    }
}

/// The left child's rows begin where the parent's do, the right child's begin where the left child's
/// end and end where the parent's do.
pub proof fn lemma_child_segs(parent: ExpandEntry, n_left: u32)
    requires
        n_left <= parent.seg_len,
        parent.seg_begin + parent.seg_len <= u32::MAX,
    ensures
        child_seg(parent, n_left, false).0 == parent.seg_begin,
        child_seg(parent, n_left, false).1 == n_left,
        child_seg(parent, n_left, true).0 == child_seg(parent, n_left, false).0 + child_seg(parent, n_left, false).1,
        child_seg(parent, n_left, true).0 + child_seg(parent, n_left, true).1 == parent.seg_begin + parent.seg_len,
{
}

/// The child whose histogram is built from its rows is the one with less hessian, the left one where
/// neither has less.
pub proof fn lemma_lighter_built(parent: ExpandEntry)
    requires
        !wide_is_nan(parent.left_stats.sum_hess),
        !wide_is_nan(parent.right_stats.sum_hess),
    ensures
        right_built(parent) ==> wide_rank(parent.right_stats.sum_hess) < wide_rank(parent.left_stats.sum_hess),
        !right_built(parent) ==> wide_rank(parent.left_stats.sum_hess) <= wide_rank(parent.right_stats.sum_hess),
{
}

/// A node's histograms stand together, target after target, and the nodes follow one another.
pub proof fn lemma_units_follow(n_targets: int, n_bins: int, k: int, t: int)
    ensures
        unit_at(n_targets, n_bins, 0, 0) == 0,
        unit_at(n_targets, n_bins, k, t + 1) == unit_at(n_targets, n_bins, k, t) + n_bins,
        unit_at(n_targets, n_bins, k + 1, 0) == unit_at(n_targets, n_bins, k, n_targets),
{
    assert((k + 1) * n_targets == k * n_targets + n_targets) by (nonlinear_arith);
    assert((k * n_targets + t + 1) * n_bins == (k * n_targets + t) * n_bins + n_bins) by (nonlinear_arith);
    assert((0 * n_targets + 0) * n_bins == 0) by (nonlinear_arith);
}

} // verus!
