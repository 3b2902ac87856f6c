//! One tree being grown, step by step.

use vstd::prelude::*;

use std::rc::Rc;

use crate::error::Error;
use crate::float_bits::{lt, lt_spec, wide_lt};
use crate::gpu::engine::{lemma_subtraction_trick, sibling, zero_pair, DeviceGpairs, DeviceRows};
use crate::gpu::evaluate_splits::DeviceSplitCandidate;
use crate::gpu::expand::{
    admitted, is_best, lemma_level_whole, pops, refused, ExpandEntry, ExpandQueue, GradStats,
};
use crate::gpu::frontier::{
    built_rows, built_unit, child_seg, lemma_unit_inside, node_fits, other_unit, parent_rows, plan_ok, right_built,
    seg_rows, target_bins, unit_at, unit_bins,
};
use crate::gpu::grower::GpuHistGrower;
use crate::gpu::histogram::{histogram, rows_ok};
use crate::gpu::pairs::{exact, lemma_wrap_exact, lemma_wrap_plus, minus, plus, total, wrap, PairSum};
use crate::gpu::row_partitioner::{
    applicable, has_row, lemma_parted_rearranges, lemma_partition_rearranges, rows_in, unowned,
    RowPartitioner, SegmentSplit,
};
use crate::gpu::segments::{
    lemma_owners_at_least, lemma_owners_concat, lemma_owners_push, lemma_total_len, lies_in, owners, tile,
    total_len, Segment,
};
use crate::gpu::GradientPairInt64;
use crate::tree::param::{GrowPolicy, RT_EPS};

verus! {

/// A leaf: its node, and its rows as a segment of the row index.
pub type LeafSegment = (usize, u32, u32);

/// The segments of some nodes.
pub open spec fn entry_segs(entries: Seq<ExpandEntry>) -> Seq<Segment> {
    Seq::new(entries.len(), |k: int| (entries[k].seg_begin, entries[k].seg_len))
}

/// The segments of some leaves.
pub open spec fn leaf_segs(leaves: Seq<LeafSegment>) -> Seq<Segment> {
    Seq::new(leaves.len(), |k: int| (leaves[k].1, leaves[k].2))
}

/// The node as a leaf.
pub open spec fn as_leaf(e: ExpandEntry) -> LeafSegment {
    (e.nid, e.seg_begin, e.seg_len)
}

/// The nodes as leaves.
pub open spec fn as_leaves(entries: Seq<ExpandEntry>) -> Seq<LeafSegment> {
    Seq::new(entries.len(), |k: int| as_leaf(entries[k]))
}

/// Every row, in order.
pub open spec fn all_rows(n: int) -> Seq<u32> {
    Seq::new(n as nat, |i: int| i as u32)
}

/// A tree being grown.
pub struct TreeGrowth {
    /// The row index, parted as the tree parts it.
    pub partitioner: RowPartitioner,
    /// The nodes that wait to be split.
    pub queue: ExpandQueue,
    pub num_leaves: i32,
    /// The nodes that stay leaves.
    pub leaf_segments: Vec<LeafSegment>,
    /// The quantised gradients, one column per target.
    pub gpairs: Vec<DeviceGpairs>,
}

impl GpuHistGrower {
    /// The node's histograms are those of the rows in its segment.
    pub open spec fn node_ok(&self, gpairs: Seq<DeviceGpairs>, part: &RowPartitioner, e: ExpandEntry) -> bool {
        &&& e.seg_begin + e.seg_len <= self.n_rows
        &&& part.whole(e.seg_begin as int, e.seg_len as int)
        &&& e.slot + self.n_targets * self.n_bins <= e.hist@.len()
        &&& e.slot + self.n_targets * self.n_bins <= u32::MAX
        &&& forall|t: int|
            0 <= t < self.n_targets ==> #[trigger] target_bins(e.hist@, e.slot as int, self.n_bins as int, t)
                == histogram(&self.engine.ell, gpairs[t].gpairs@, parent_rows(e, part.rows()), self.n_bins as int)
    }
}

/// The nodes are equally deep and keep their histograms in one buffer.
pub open spec fn one_level(entries: Seq<ExpandEntry>) -> bool {
    forall|a: int, b: int|
        0 <= a < entries.len() && 0 <= b < entries.len() ==> (#[trigger] entries[a]).depth == (
        #[trigger] entries[b]).depth && entries[a].hist@ == entries[b].hist@
}

impl TreeGrowth {
    /// All nodes whose rows are spoken for: the leaves, the queue, and the nodes in the
    /// caller's hands.
    pub open spec fn segs(&self, held: Seq<ExpandEntry>) -> Seq<Segment> {
        leaf_segs(self.leaf_segments@) + entry_segs(self.queue.entries()) + entry_segs(held)
    }

    /// What every step keeps, with the nodes `held` in the caller's hands.
    pub open spec fn wf(&self, grower: &GpuHistGrower, held: Seq<ExpandEntry>) -> bool {
        &&& self.partitioner.wf()
        &&& self.partitioner.rows().len() == grower.n_rows
        &&& self.partitioner.rows().to_multiset() == all_rows(grower.n_rows as int).to_multiset()
        &&& self.gpairs.len() == grower.n_targets
        &&& forall|t: int| 0 <= t < grower.n_targets ==> (#[trigger] self.gpairs[t]).gpairs.len() == grower.n_rows
        &&& tile(self.segs(held), grower.n_rows as int)
        &&& forall|k: int|
            0 <= k < self.queue.entries().len() ==> grower.node_ok(
                self.gpairs@,
                &self.partitioner,
                #[trigger] self.queue.entries()[k],
            )
        &&& forall|k: int| 0 <= k < held.len() ==> grower.node_ok(self.gpairs@, &self.partitioner, #[trigger] held[k])
        &&& self.queue.by_level() == (grower.param.grow_policy == GrowPolicy::DepthWise)
        &&& self.queue.by_level() ==> one_level(self.queue.entries() + held)
    }
}

/// The node's split gains enough for it to be queued.
pub open spec fn promising(e: ExpandEntry) -> bool {
    lt_spec(RT_EPS, e.split.loss_chg)
}

/// Of the first `n` nodes, those that are queued.
pub open spec fn queued(entries: Seq<ExpandEntry>, n: int) -> Seq<ExpandEntry>
    decreases n,
{
    if n <= 0 {
        Seq::empty()
    } else if promising(entries[n - 1]) {
        queued(entries, n - 1).push(entries[n - 1])
    } else {
        queued(entries, n - 1)
    }
}

/// Of the first `n` nodes, those that stay leaves.
pub open spec fn settled(entries: Seq<ExpandEntry>, n: int) -> Seq<ExpandEntry>
    decreases n,
{
    if n <= 0 {
        Seq::empty()
    } else if promising(entries[n - 1]) {
        settled(entries, n - 1)
    } else {
        settled(entries, n - 1).push(entries[n - 1])
    }
}

proof fn lemma_entry_segs_push(entries: Seq<ExpandEntry>, e: ExpandEntry, i: int)
    ensures
        owners(entry_segs(entries.push(e)), i) == owners(entry_segs(entries), i) + (if lies_in(
            (e.seg_begin, e.seg_len),
            i,
        ) {
            1int
        } else {
            0
        }),
{
    assert(entry_segs(entries.push(e)) =~= entry_segs(entries).push((e.seg_begin, e.seg_len)));
    lemma_owners_push(entry_segs(entries), (e.seg_begin, e.seg_len), i);
}

proof fn lemma_leaf_segs_push(leaves: Seq<LeafSegment>, leaf: LeafSegment, i: int)
    ensures
        owners(leaf_segs(leaves.push(leaf)), i) == owners(leaf_segs(leaves), i) + (if lies_in((leaf.1, leaf.2), i) {
            1int
        } else {
            0
        }),
{
    assert(leaf_segs(leaves.push(leaf)) =~= leaf_segs(leaves).push((leaf.1, leaf.2)));
    lemma_owners_push(leaf_segs(leaves), (leaf.1, leaf.2), i);
}

/// How often the parts of the state cover a position.
proof fn lemma_segs_owners(growth: &TreeGrowth, held: Seq<ExpandEntry>, i: int)
    ensures
        owners(growth.segs(held), i) == owners(leaf_segs(growth.leaf_segments@), i) + owners(
            entry_segs(growth.queue.entries()),
            i,
        ) + owners(entry_segs(held), i),
{
    let a = leaf_segs(growth.leaf_segments@);
    let b = entry_segs(growth.queue.entries());
    lemma_owners_concat(a, b, i);
    lemma_owners_concat(a + b, entry_segs(held), i);
}

/// The state tiles where its parts lie within the row index and together cover every
/// position once.
proof fn lemma_tile_parts(growth: &TreeGrowth, held: Seq<ExpandEntry>, n: int)
    requires
        forall|k: int|
            0 <= k < growth.leaf_segments.len() ==> (#[trigger] growth.leaf_segments[k]).1 + growth.leaf_segments[k].2
                <= n,
        forall|k: int|
            0 <= k < growth.queue.entries().len() ==> (#[trigger] growth.queue.entries()[k]).seg_begin
                + growth.queue.entries()[k].seg_len <= n,
        forall|k: int| 0 <= k < held.len() ==> (#[trigger] held[k]).seg_begin + held[k].seg_len <= n,
        forall|i: int|
            0 <= i < n ==> #[trigger] owners(leaf_segs(growth.leaf_segments@), i) + owners(
                entry_segs(growth.queue.entries()),
                i,
            ) + owners(entry_segs(held), i) == 1,
    ensures
        tile(growth.segs(held), n),
{
    let a = leaf_segs(growth.leaf_segments@);
    let b = entry_segs(growth.queue.entries());
    let c = entry_segs(held);
    let segs = growth.segs(held);
    assert forall|k: int| 0 <= k < segs.len() implies (#[trigger] segs[k]).0 + segs[k].1 <= n by {
        if k < a.len() {
            assert(segs[k] == a[k]);
            assert(growth.leaf_segments[k].1 + growth.leaf_segments[k].2 <= n);
        } else if k < a.len() + b.len() {
            let q = k - a.len();
            assert(segs[k] == b[q]);
            assert(growth.queue.entries()[q].seg_begin + growth.queue.entries()[q].seg_len <= n);
        } else {
            let q = k - a.len() - b.len();
            assert(segs[k] == c[q]);
            assert(held[q].seg_begin + held[q].seg_len <= n);
        }
    }
    assert forall|i: int| 0 <= i < n implies #[trigger] owners(segs, i) == 1 by {
        lemma_segs_owners(growth, held, i);
        assert(owners(a, i) + owners(b, i) + owners(c, i) == 1);
    }
}

/// The segments of the state lie within the row index.
proof fn lemma_parts_within(growth: &TreeGrowth, held: Seq<ExpandEntry>, n: int)
    requires
        tile(growth.segs(held), n),
    ensures
        forall|k: int|
            0 <= k < growth.leaf_segments.len() ==> (#[trigger] growth.leaf_segments[k]).1 + growth.leaf_segments[k].2
                <= n,
        forall|i: int|
            0 <= i < n ==> #[trigger] owners(leaf_segs(growth.leaf_segments@), i) + owners(
                entry_segs(growth.queue.entries()),
                i,
            ) + owners(entry_segs(held), i) == 1,
{
    let a = leaf_segs(growth.leaf_segments@);
    let segs = growth.segs(held);
    assert forall|k: int| 0 <= k < growth.leaf_segments.len() implies (#[trigger] growth.leaf_segments[k]).1
        + growth.leaf_segments[k].2 <= n by {
        assert(segs[k] == a[k]);
        assert(segs[k].0 + segs[k].1 <= n);
    }
    assert forall|i: int| 0 <= i < n implies #[trigger] owners(a, i) + owners(entry_segs(growth.queue.entries()), i)
        + owners(entry_segs(held), i) == 1 by {
        lemma_segs_owners(growth, held, i);
        assert(owners(segs, i) == 1);
    }
}

impl TreeGrowth {
    /// Queue the nodes whose split gains enough; the others stay leaves.
    pub fn enqueue(&mut self, grower: &GpuHistGrower, evaluated: Vec<ExpandEntry>)
        requires
            old(self).wf(grower, evaluated@),
        ensures
            final(self).wf(grower, Seq::empty()),
            final(self).queue.entries() == old(self).queue.entries() + queued(evaluated@, evaluated.len() as int),
            final(self).leaf_segments@ == old(self).leaf_segments@ + as_leaves(settled(evaluated@, evaluated.len() as int)),
            final(self).partitioner == old(self).partitioner,
            final(self).num_leaves == old(self).num_leaves,
            final(self).gpairs == old(self).gpairs,
    {
        let ghost was = *self;
        let ghost all = evaluated@;
        let ghost then = self.queue.entries() + all;
        let ghost n = grower.n_rows as int;
        let mut rest: Vec<ExpandEntry> = evaluated;
        let mut order: Vec<ExpandEntry> = Vec::new();
        // Taken from the back and handed on from the back again, so that they keep their
        // order.
        while rest.len() > 0
            invariant
                rest.len() + order.len() == all.len(),
                forall|k: int| 0 <= k < rest.len() ==> rest[k] == all[k],
                forall|k: int| 0 <= k < order.len() ==> #[trigger] order[k] == all[all.len() - 1 - k],
            decreases rest.len(),
        {
            match rest.pop() {
                Some(e) => order.push(e),
                None => {},
            }
        }
        proof {
            lemma_parts_within(self, all, n);
            assert(self.queue.entries() + queued(all, 0) =~= was.queue.entries());
            assert(self.leaf_segments@ + as_leaves(settled(all, 0)) =~= was.leaf_segments@);
            assert(all.subrange(0, all.len() as int) =~= all);
            assert forall|k: int| 0 <= k < self.queue.entries().len() implies then.contains(
                #[trigger] self.queue.entries()[k],
            ) by {
                assert(then[k] == self.queue.entries()[k]);
            }
        }
        let ghost mut done: int = 0;
        while order.len() > 0
            invariant
                was.wf(grower, all),
                n == grower.n_rows,
                done + order.len() == all.len(),
                0 <= done,
                forall|k: int| 0 <= k < order.len() ==> #[trigger] order[k] == all[all.len() - 1 - k],
                self.queue.entries() == was.queue.entries() + queued(all, done),
                self.queue.by_level() == was.queue.by_level(),
                self.leaf_segments@ == was.leaf_segments@ + as_leaves(settled(all, done)),
                self.partitioner == was.partitioner,
                self.num_leaves == was.num_leaves,
                self.gpairs == was.gpairs,
                forall|k: int|
                    0 <= k < self.leaf_segments.len() ==> (#[trigger] self.leaf_segments[k]).1 + self.leaf_segments[k].2
                        <= n,
                forall|k: int|
                    0 <= k < self.queue.entries().len() ==> grower.node_ok(
                        self.gpairs@,
                        &self.partitioner,
                        #[trigger] self.queue.entries()[k],
                    ),
                forall|k: int|
                    0 <= k < self.queue.entries().len() ==> then.contains(#[trigger] self.queue.entries()[k]),
                then == was.queue.entries() + all,
                forall|i: int|
                    0 <= i < n ==> #[trigger] owners(leaf_segs(self.leaf_segments@), i) + owners(
                        entry_segs(self.queue.entries()),
                        i,
                    ) + owners(entry_segs(all.subrange(done, all.len() as int)), i) == 1,
            decreases order.len(),
        {
            let ghost before = *self;
            let ghost rest = all.subrange(done, all.len() as int);
            let ghost rest2 = all.subrange(done + 1, all.len() as int);
            match order.pop() {
                Some(e) => {
                    proof {
                        assert(e == all[done]);
                        assert(grower.node_ok(was.gpairs@, &was.partitioner, all[done]));
                        assert(then[was.queue.entries().len() + done] == e);
                        assert forall|i: int| owners(#[trigger] entry_segs(rest), i) == owners(entry_segs(rest2), i) + (
                        if lies_in((e.seg_begin, e.seg_len), i) {
                            1int
                        } else {
                            0
                        }) by {
                            lemma_front_owner(rest, i);
                            assert(rest.drop_first() =~= rest2);
                        }
                    }
                    if lt(RT_EPS, e.split.loss_chg) {
                        self.queue.push(e);
                        proof {
                            assert(self.queue.entries() =~= was.queue.entries() + queued(all, done + 1));
                            assert forall|i: int| 0 <= i < n implies #[trigger] owners(
                                leaf_segs(self.leaf_segments@),
                                i,
                            ) + owners(entry_segs(self.queue.entries()), i) + owners(entry_segs(rest2), i) == 1 by {
                                assert(owners(leaf_segs(before.leaf_segments@), i) + owners(
                                    entry_segs(before.queue.entries()),
                                    i,
                                ) + owners(entry_segs(rest), i) == 1);
                                lemma_entry_segs_push(before.queue.entries(), e, i);
                            }
                        }
                    } else {
                        self.leaf_segments.push((e.nid, e.seg_begin, e.seg_len));
                        proof {
                            assert(self.leaf_segments@ =~= was.leaf_segments@ + as_leaves(settled(all, done + 1)));
                            assert forall|i: int| 0 <= i < n implies #[trigger] owners(
                                leaf_segs(self.leaf_segments@),
                                i,
                            ) + owners(entry_segs(self.queue.entries()), i) + owners(entry_segs(rest2), i) == 1 by {
                                assert(owners(leaf_segs(before.leaf_segments@), i) + owners(
                                    entry_segs(before.queue.entries()),
                                    i,
                                ) + owners(entry_segs(rest), i) == 1);
                                lemma_leaf_segs_push(before.leaf_segments@, as_leaf(e), i);
                            }
                        }
                    }
                },
                None => {},
            }
            proof {
                done = done + 1;
            }
        }
        proof {
            assert(all.subrange(done, all.len() as int) =~= Seq::empty());
            let none = Seq::<ExpandEntry>::empty();
            lemma_tile_parts(self, none, n);
            if self.queue.by_level() {
                let now = self.queue.entries() + none;
                assert(now =~= self.queue.entries());
                assert forall|a: int, b: int| 0 <= a < now.len() && 0 <= b < now.len() implies (#[trigger] now[a]).depth == (
                #[trigger] now[b]).depth && now[a].hist@ == now[b].hist@ by {
                    assert(then.contains(self.queue.entries()[a]) && then.contains(self.queue.entries()[b]));
                    let j = choose|j: int| 0 <= j < then.len() && then[j] == now[a];
                    let k = choose|k: int| 0 <= k < then.len() && then[k] == now[b];
                    assert(then[j].depth == then[k].depth);
                }
            }
        }
    }
}

proof fn lemma_front_owner(entries: Seq<ExpandEntry>, i: int)
    requires
        entries.len() > 0,
    ensures
        owners(entry_segs(entries), i) == owners(entry_segs(entries.drop_first()), i) + (if lies_in(
            (entries[0].seg_begin, entries[0].seg_len),
            i,
        ) {
            1int
        } else {
            0
        }),
{
    let head = Seq::empty().push((entries[0].seg_begin, entries[0].seg_len));
    assert(entry_segs(entries) =~= head + entry_segs(entries.drop_first()));
    lemma_owners_concat(head, entry_segs(entries.drop_first()), i);
    lemma_owners_push(Seq::empty(), (entries[0].seg_begin, entries[0].seg_len), i);
}

/// Dealing entries out into two hands covers what they covered.
proof fn lemma_dealt(entries: Seq<ExpandEntry>, n: int, p: &crate::tree::param::TrainParam, leaves: int, i: int)
    requires
        0 <= n <= entries.len(),
    ensures
        owners(entry_segs(admitted(entries, n, p, leaves)), i) + owners(entry_segs(refused(entries, n, p, leaves)), i)
            == owners(entry_segs(entries.subrange(0, n)), i),
        forall|k: int|
            0 <= k < admitted(entries, n, p, leaves).len() ==> entries.contains(
                #[trigger] admitted(entries, n, p, leaves)[k],
            ),
        forall|k: int|
            0 <= k < refused(entries, n, p, leaves).len() ==> entries.contains(
                #[trigger] refused(entries, n, p, leaves)[k],
            ),
    decreases n,
{
    if n > 0 {
        let e = entries[n - 1];
        lemma_dealt(entries, n - 1, p, leaves, i);
        assert(entries.subrange(0, n) =~= entries.subrange(0, n - 1).push(e));
        lemma_entry_segs_push(entries.subrange(0, n - 1), e, i);
        lemma_entry_segs_push(admitted(entries, n - 1, p, leaves), e, i);
        lemma_entry_segs_push(refused(entries, n - 1, p, leaves), e, i);
        assert(entries.contains(e));
    } else {
        assert(entries.subrange(0, n) =~= Seq::empty());
    }
}

/// Taking an entry out uncovers its segment.
proof fn lemma_removed_owner(entries: Seq<ExpandEntry>, k: int, i: int)
    requires
        0 <= k < entries.len(),
    ensures
        owners(entry_segs(entries), i) == owners(entry_segs(entries.remove(k)), i) + (if lies_in(
            (entries[k].seg_begin, entries[k].seg_len),
            i,
        ) {
            1int
        } else {
            0
        }),
{
    let head = entry_segs(entries.subrange(0, k));
    let tail = entry_segs(entries.subrange(k + 1, entries.len() as int));
    let seg = (entries[k].seg_begin, entries[k].seg_len);
    assert(entry_segs(entries) =~= head.push(seg) + tail);
    assert(entry_segs(entries.remove(k)) =~= head + tail);
    lemma_owners_concat(head.push(seg), tail, i);
    lemma_owners_push(head, seg, i);
    lemma_owners_concat(head, tail, i);
}

impl TreeGrowth {
    /// The nodes to be split next, which pass into the caller's hands: one of them best
    /// first, a whole level otherwise. A node that was due but is not worth splitting stays
    /// a leaf. The tree is done when there is none.
    pub fn next_batch(&mut self, grower: &GpuHistGrower) -> (batch: Vec<ExpandEntry>)
        requires
            old(self).wf(grower, Seq::empty()),
            old(self).num_leaves + old(self).queue.entries().len() <= i32::MAX,
        ensures
            final(self).wf(grower, batch@),
            one_level(batch@),
            final(self).queue.by_level() ==> final(self).queue.entries().len() == 0,
            final(self).num_leaves == old(self).num_leaves + batch.len(),
            final(self).partitioner == old(self).partitioner,
            final(self).gpairs == old(self).gpairs,
            forall|k: int| 0 <= k < batch.len() ==> old(self).queue.entries().contains(#[trigger] batch[k]),
            forall|k: int|
                0 <= k < final(self).queue.entries().len() ==> old(self).queue.entries().contains(
                    #[trigger] final(self).queue.entries()[k],
                ),
            old(self).queue.entries().len() == 0 ==> batch.len() == 0 && final(self).leaf_segments@
                == old(self).leaf_segments@ && final(self).queue.entries() == old(self).queue.entries(),
            old(self).queue.by_level() ==> ({
                let was = old(self).queue.entries();
                &&& batch@ == admitted(was, was.len() as int, &grower.param, old(self).num_leaves as int)
                &&& final(self).leaf_segments@ == old(self).leaf_segments@ + as_leaves(
                    refused(was, was.len() as int, &grower.param, old(self).num_leaves as int),
                )
            }),
            !old(self).queue.by_level() && old(self).queue.entries().len() > 0 ==> exists|k: int, stays: Seq<ExpandEntry>|
                #[trigger] is_best(old(self).queue.entries(), k) && #[trigger] pops(
                    old(self).queue.entries(),
                    k,
                    final(self).queue.entries(),
                    batch@,
                    stays,
                    &grower.param,
                    old(self).num_leaves as int,
                ) && final(self).leaf_segments@ == old(self).leaf_segments@ + as_leaves(stays),
    {
        let ghost was = *self;
        let ghost wq = self.queue.entries();
        let ghost n = grower.n_rows as int;
        let mut leaves: i32 = self.num_leaves;
        let (batch, stays) = self.queue.pop_batch(&grower.param, &mut leaves);
        self.num_leaves = leaves;
        let ghost nl = was.num_leaves as int;
        let ghost popped = self.queue.entries();
        proof {
            lemma_parts_within(&was, Seq::empty(), n);
            assert(wq + Seq::empty() =~= wq);
            if wq.len() == 0 {
                assert(batch@ =~= admitted(wq, 0, &grower.param, nl));
                assert(stays@ =~= refused(wq, 0, &grower.param, nl));
            } else if self.queue.by_level() {
                assert forall|k: int| 0 <= k < wq.len() implies (#[trigger] wq[k]).depth == wq[0].depth by {
                    assert((wq + Seq::empty())[k] == wq[k]);
                }
                lemma_level_whole(wq, wq[0].depth);
            }
            assert forall|i: int| 0 <= i < n implies owners(entry_segs(popped), i) + owners(entry_segs(batch@), i) + owners(
                entry_segs(stays@),
                i,
            ) == #[trigger] owners(entry_segs(wq), i) by {
                if wq.len() == 0 {
                    assert(entry_segs(batch@) =~= Seq::empty());
                    assert(entry_segs(stays@) =~= Seq::empty());
                } else if self.queue.by_level() {
                    lemma_dealt(wq, wq.len() as int, &grower.param, nl, i);
                    assert(wq.subrange(0, wq.len() as int) =~= wq);
                    assert(entry_segs(popped) =~= Seq::empty());
                } else {
                    let k = choose|k: int|
                        #[trigger] is_best(wq, k) && pops(wq, k, popped, batch@, stays@, &grower.param, nl);
                    lemma_removed_owner(wq, k, i);
                    lemma_entry_segs_push(Seq::empty(), wq[k], i);
                    assert(seq![wq[k]] =~= Seq::empty().push(wq[k]));
                    assert(entry_segs(Seq::<ExpandEntry>::empty()) =~= Seq::empty());
                }
            }
            assert forall|k: int| 0 <= k < batch.len() implies wq.contains(#[trigger] batch[k]) by {
                if wq.len() > 0 {
                    if self.queue.by_level() {
                        lemma_dealt(wq, wq.len() as int, &grower.param, nl, 0);
                    } else {
                        let j = choose|j: int|
                            #[trigger] is_best(wq, j) && pops(wq, j, popped, batch@, stays@, &grower.param, nl);
                        assert(batch[k] == wq[j]);
                    }
                }
            }
            assert forall|k: int| 0 <= k < stays.len() implies wq.contains(#[trigger] stays[k]) by {
                if wq.len() > 0 {
                    if self.queue.by_level() {
                        lemma_dealt(wq, wq.len() as int, &grower.param, nl, 0);
                    } else {
                        let j = choose|j: int|
                            #[trigger] is_best(wq, j) && pops(wq, j, popped, batch@, stays@, &grower.param, nl);
                        assert(stays[k] == wq[j]);
                    }
                }
            }
            assert(was.leaf_segments@ + as_leaves(stays@.subrange(0, 0)) =~= was.leaf_segments@);
            assert(leaf_segs(self.leaf_segments@) == leaf_segs(was.leaf_segments@));
            assert(stays@.subrange(0, stays.len() as int) =~= stays@);
        }
        let mut k: usize = 0;
        while k < stays.len()
            invariant
                k <= stays.len(),
                self.leaf_segments@ == was.leaf_segments@ + as_leaves(stays@.subrange(0, k as int)),
                self.queue.entries() == popped,
                self.queue.by_level() == was.queue.by_level(),
                self.num_leaves == nl + batch.len(),
                self.partitioner == was.partitioner,
                self.gpairs == was.gpairs,
                forall|i: int|
                    0 <= i < n ==> #[trigger] owners(leaf_segs(self.leaf_segments@), i) == owners(
                        leaf_segs(was.leaf_segments@),
                        i,
                    ) + owners(entry_segs(stays@.subrange(0, k as int)), i),
            decreases stays.len() - k,
        {
            let ghost before = self.leaf_segments@;
            self.leaf_segments.push((stays[k].nid, stays[k].seg_begin, stays[k].seg_len));
            proof {
                let head = stays@.subrange(0, k as int);
                assert(stays@.subrange(0, k + 1) =~= head.push(stays[k as int]));
                assert(self.leaf_segments@ =~= was.leaf_segments@ + as_leaves(stays@.subrange(0, k + 1)));
                assert forall|i: int| 0 <= i < n implies #[trigger] owners(leaf_segs(self.leaf_segments@), i) == owners(
                    leaf_segs(was.leaf_segments@),
                    i,
                ) + owners(entry_segs(stays@.subrange(0, k + 1)), i) by {
                    assert(owners(leaf_segs(before), i) == owners(leaf_segs(was.leaf_segments@), i) + owners(
                        entry_segs(head),
                        i,
                    ));
                    lemma_leaf_segs_push(before, as_leaf(stays[k as int]), i);
                    lemma_entry_segs_push(head, stays[k as int], i);
                }
            }
            k += 1;
        }
        proof {
            assert forall|k: int| 0 <= k < self.leaf_segments.len() implies (#[trigger] self.leaf_segments[k]).1
                + self.leaf_segments[k].2 <= n by {
                if k < was.leaf_segments.len() {
                    assert(self.leaf_segments[k] == was.leaf_segments[k]);
                } else {
                    let j = k - was.leaf_segments.len();
                    assert(self.leaf_segments[k] == as_leaf(stays[j]));
                    assert(wq.contains(stays[j]));
                }
            }
            assert forall|k: int| 0 <= k < popped.len() implies wq.contains(#[trigger] popped[k]) by {
                if wq.len() > 0 && !self.queue.by_level() {
                    let j = choose|j: int|
                        #[trigger] is_best(wq, j) && pops(wq, j, popped, batch@, stays@, &grower.param, nl);
                    if k < j {
                        assert(popped[k] == wq[k]);
                    } else {
                        assert(popped[k] == wq[k + 1]);
                    }
                }
            }
            assert forall|i: int| 0 <= i < n implies #[trigger] owners(leaf_segs(self.leaf_segments@), i) + owners(
                entry_segs(self.queue.entries()),
                i,
            ) + owners(entry_segs(batch@), i) == 1 by {
                assert(owners(leaf_segs(was.leaf_segments@), i) + owners(entry_segs(wq), i) + owners(
                    entry_segs(Seq::<ExpandEntry>::empty()),
                    i,
                ) == 1);
                assert(entry_segs(Seq::<ExpandEntry>::empty()) =~= Seq::empty());
                assert(owners(entry_segs(wq), i) == owners(entry_segs(popped), i) + owners(entry_segs(batch@), i)
                    + owners(entry_segs(stays@), i));
            }
            assert forall|k: int| 0 <= k < popped.len() implies grower.node_ok(
                self.gpairs@,
                &self.partitioner,
                #[trigger] popped[k],
            ) by {
                assert(wq.contains(popped[k]));
            }
            assert forall|k: int| 0 <= k < batch.len() implies grower.node_ok(
                self.gpairs@,
                &self.partitioner,
                #[trigger] batch[k],
            ) by {
                assert(wq.contains(batch[k]));
            }
            lemma_tile_parts(self, batch@, n);
            if self.queue.by_level() {
                assert(popped.len() == 0);
                assert(popped + batch@ =~= batch@);
                assert forall|a: int, b: int| 0 <= a < batch.len() && 0 <= b < batch.len() implies (
                #[trigger] batch@[a]).depth == (#[trigger] batch@[b]).depth && batch@[a].hist@ == batch@[b].hist@ by {
                    assert(wq.contains(batch[a]) && wq.contains(batch[b]));
                    let j = choose|j: int| 0 <= j < wq.len() && wq[j] == batch[a];
                    let k = choose|k: int| 0 <= k < wq.len() && wq[k] == batch[b];
                    assert((wq + Seq::empty())[j].depth == (wq + Seq::empty())[k].depth);
                }
            }
        }
        batch
    }
}

/// What a grown tree leaves behind: which rows ended in which leaf.
#[derive(Clone, Debug)]
pub struct GrownTree {
    /// Rows grouped by leaf, in segment order.
    pub ridx: Vec<u32>,
    /// Each leaf's node, and its segment of `ridx`.
    pub leaf_segments: Vec<LeafSegment>,
}

impl GrownTree {
    /// Every one of the `n` rows is in the index once, and every position of the index in
    /// one leaf.
    pub open spec fn wf(&self, n: int) -> bool {
        &&& self.ridx.len() == n
        &&& self.ridx@.to_multiset() == all_rows(n).to_multiset()
        &&& tile(leaf_segs(self.leaf_segments@), n)
    }
}

impl TreeGrowth {
    /// The tree as it stands: whatever is still queued stays a leaf.
    pub fn finish(self, grower: &GpuHistGrower) -> (tree: GrownTree)
        requires
            self.wf(grower, Seq::empty()),
        ensures
            tree.wf(grower.n_rows as int),
            tree.ridx@ == self.partitioner.rows(),
            tree.leaf_segments@ == self.leaf_segments@ + as_leaves(self.queue.entries()),
    {
        let ridx: Vec<u32> = self.partitioner.read();
        let ghost was = self;
        let ghost n = grower.n_rows as int;
        let mut leaf_segments: Vec<LeafSegment> = self.leaf_segments;
        let queue: Vec<ExpandEntry> = match self.queue {
            ExpandQueue::DepthWise(q) => q,
            ExpandQueue::LossGuide(q) => q,
        };
        proof {
            assert(queue@ == was.queue.entries());
            assert(was.leaf_segments@ + as_leaves(queue@.subrange(0, 0)) =~= was.leaf_segments@);
        }
        let mut k: usize = 0;
        while k < queue.len()
            invariant
                k <= queue.len(),
                leaf_segments@ == was.leaf_segments@ + as_leaves(queue@.subrange(0, k as int)),
            decreases queue.len() - k,
        {
            leaf_segments.push((queue[k].nid, queue[k].seg_begin, queue[k].seg_len));
            proof {
                assert(queue@.subrange(0, k + 1) =~= queue@.subrange(0, k as int).push(queue[k as int]));
                assert(leaf_segments@ =~= was.leaf_segments@ + as_leaves(queue@.subrange(0, k + 1)));
            }
            k += 1;
        }
        proof {
            assert(queue@.subrange(0, queue.len() as int) =~= queue@);
            assert(leaf_segs(leaf_segments@) =~= was.segs(Seq::empty()));
        }
        GrownTree { ridx, leaf_segments }
    }
}

/// The nodes a split makes, and the gain of leaving each a leaf.
#[derive(Clone, Copy, Debug, PartialEq, Eq, Structural)]
pub struct ChildIds {
    pub left: usize,
    pub right: usize,
    pub left_gain: u32,
    pub right_gain: u32,
}

/// `e` is the right or the left child of `parent`, before its own split is looked for.
pub open spec fn is_child(
    e: ExpandEntry,
    parent: ExpandEntry,
    ids: ChildIds,
    n_left: u32,
    right: bool,
    hist: Seq<GradientPairInt64>,
    slot: int,
) -> bool {
    let left_sum = GradientPairInt64 { grad: parent.split.left_grad, hess: parent.split.left_hess };
    &&& e.nid == (if right {
        ids.right
    } else {
        ids.left
    })
    &&& e.depth == parent.depth + 1
    &&& (e.seg_begin, e.seg_len) == child_seg(parent, n_left, right)
    &&& e.hist@ == hist
    &&& e.slot == slot
    &&& e.sum == (if right {
        wrap(minus(exact(parent.sum), exact(left_sum)))
    } else {
        left_sum
    })
    &&& e.root_gain == (if right {
        ids.right_gain
    } else {
        ids.left_gain
    })
    &&& e.split == (DeviceSplitCandidate {
        loss_chg: 0,
        sindex: 0,
        split_value: 0,
        left_grad: 0,
        left_hess: 0,
        is_cat: false,
    })
    &&& e.left_stats == (GradStats { sum_grad: 0, sum_hess: 0 })
    &&& e.right_stats == (GradStats { sum_grad: 0, sum_hess: 0 })
    &&& e.cat_bits@ == Seq::<u32>::empty()
    &&& e.target_sums@ == (if right {
        parent.right_target_sums@
    } else {
        parent.left_target_sums@
    })
    &&& e.left_target_sums@ == Seq::<GradientPairInt64>::empty()
    &&& e.right_target_sums@ == Seq::<GradientPairInt64>::empty()
}

/// Where an entry of node `nid` goes among entries in ascending order: behind those of no
/// larger id.
pub open spec fn place(entries: Seq<ExpandEntry>, nid: usize) -> int
    decreases entries.len(),
{
    if entries.len() == 0 {
        0
    } else if entries.last().nid <= nid {
        entries.len() as int
    } else {
        place(entries.drop_last(), nid)
    }
}

/// The entries in ascending order of their node ids.
pub open spec fn by_nid(entries: Seq<ExpandEntry>) -> Seq<ExpandEntry>
    decreases entries.len(),
{
    if entries.len() == 0 {
        Seq::empty()
    } else {
        let rest = by_nid(entries.drop_last());
        rest.insert(place(rest, entries.last().nid), entries.last())
    }
}

pub(crate) proof fn lemma_place(entries: Seq<ExpandEntry>, nid: usize)
    requires
        ascending(entries),
    ensures
        0 <= place(entries, nid) <= entries.len(),
        forall|k: int| 0 <= k < place(entries, nid) ==> (#[trigger] entries[k]).nid <= nid,
        forall|k: int| place(entries, nid) <= k < entries.len() ==> nid < (#[trigger] entries[k]).nid,
    decreases entries.len(),
{
    if entries.len() > 0 {
        let rest = entries.drop_last();
        assert forall|a: int, b: int| 0 <= a <= b < rest.len() implies (#[trigger] rest[a]).nid <= (
        #[trigger] rest[b]).nid by {
            assert(entries[a].nid <= entries[b].nid);
        }
        lemma_place(rest, nid);
        if entries.last().nid <= nid {
            assert forall|k: int| 0 <= k < entries.len() implies (#[trigger] entries[k]).nid <= nid by {
                assert(entries[k].nid <= entries[entries.len() - 1].nid);
            }
        } else {
            assert forall|k: int| 0 <= k < place(entries, nid) implies (#[trigger] entries[k]).nid <= nid by {
                assert(rest[k] == entries[k]);
            }
            assert forall|k: int| place(entries, nid) <= k < entries.len() implies nid < (#[trigger] entries[k]).nid by {
                if k < rest.len() {
                    assert(rest[k] == entries[k]);
                }
            }
        }
    }
}

/// The node ids ascend.
pub open spec fn ascending(entries: Seq<ExpandEntry>) -> bool {
    forall|a: int, b: int|
        0 <= a <= b < entries.len() ==> (#[trigger] entries[a]).nid <= (#[trigger] entries[b]).nid
}

/// Sorting keeps the entries and puts their ids in ascending order.
pub proof fn lemma_by_nid(entries: Seq<ExpandEntry>)
    ensures
        ascending(by_nid(entries)),
        by_nid(entries).to_multiset() == entries.to_multiset(),
        by_nid(entries).len() == entries.len(),
        forall|k: int| 0 <= k < by_nid(entries).len() ==> entries.contains(#[trigger] by_nid(entries)[k]),
        forall|i: int| owners(entry_segs(by_nid(entries)), i) == #[trigger] owners(entry_segs(entries), i),
    decreases entries.len(),
{
    broadcast use vstd::seq_lib::group_to_multiset_ensures;

    if entries.len() > 0 {
        let front = entries.drop_last();
        let e = entries.last();
        let rest = by_nid(front);
        lemma_by_nid(front);
        lemma_place(rest, e.nid);
        let p = place(rest, e.nid);
        let all = by_nid(entries);
        assert(all == rest.insert(p, e));
        assert forall|a: int, b: int| 0 <= a <= b < all.len() implies (#[trigger] all[a]).nid <= (#[trigger] all[b]).nid by {
            let x = if a < p {
                a
            } else {
                a - 1
            };
            let y = if b < p {
                b
            } else {
                b - 1
            };
            if a != p && b != p {
                assert(rest[x].nid <= rest[y].nid);
                assert(all[a] == rest[x] && all[b] == rest[y]);
            } else if a == p && b > p {
                assert(all[b] == rest[y]);
            } else if b == p && a < p {
                assert(all[a] == rest[x]);
            }
        }
        assert forall|k: int| 0 <= k < all.len() implies entries.contains(#[trigger] all[k]) by {
            if k == p {
                assert(entries[entries.len() - 1] == e);
            } else {
                let x = if k < p {
                    k
                } else {
                    k - 1
                };
                assert(all[k] == rest[x]);
                assert(front.contains(rest[x]));
                let j = choose|j: int| 0 <= j < front.len() && front[j] == rest[x];
                assert(entries[j] == rest[x]);
            }
        }
        assert(entries =~= front.push(e));
        assert forall|i: int| owners(entry_segs(all), i) == #[trigger] owners(entry_segs(entries), i) by {
            lemma_entry_segs_push(front, e, i);
            assert(all.remove(p) =~= rest);
            lemma_removed_owner(all, p, i);
            assert(owners(entry_segs(rest), i) == owners(entry_segs(front), i));
        }
        assert(all.to_multiset() =~= rest.to_multiset().insert(e));
    } else {
        assert(by_nid(entries) =~= entries);
    }
}

/// Put an entry in its place.
fn insert_by_nid(entries: &mut Vec<ExpandEntry>, e: ExpandEntry)
    requires
        ascending(old(entries)@),
    ensures
        final(entries)@ == old(entries)@.insert(place(old(entries)@, e.nid), e),
{
    let mut pos: usize = entries.len();
    assert(entries@.subrange(0, pos as int) =~= entries@);
    while pos > 0 && entries[pos - 1].nid > e.nid
        invariant
            pos <= entries.len(),
            place(entries@, e.nid) == place(entries@.subrange(0, pos as int), e.nid),
        decreases pos,
    {
        assert(entries@.subrange(0, pos as int).drop_last() =~= entries@.subrange(0, pos - 1));
        pos -= 1;
    }
    assert(pos > 0 ==> entries@.subrange(0, pos as int).last() == entries[pos - 1]);
    entries.insert(pos, e);
}

impl GpuHistGrower {
    /// Of the first `n` nodes of a batch, those whose children may be split in their turn.
    pub open spec fn planned(&self, batch: Seq<ExpandEntry>, leaves: int, n: int) -> Seq<usize>
        decreases n,
    {
        if n <= 0 {
            Seq::empty()
        } else if self.children_expand(&batch[n - 1], leaves) {
            self.planned(batch, leaves, n - 1).push((n - 1) as usize)
        } else {
            self.planned(batch, leaves, n - 1)
        }
    }

    /// The children of the others, which are leaves already.
    pub open spec fn new_leaves(
        &self,
        batch: Seq<ExpandEntry>,
        ids: Seq<ChildIds>,
        counts: Seq<u32>,
        leaves: int,
        n: int,
    ) -> Seq<LeafSegment>
        decreases n,
    {
        if n <= 0 {
            Seq::empty()
        } else {
            let rest = self.new_leaves(batch, ids, counts, leaves, n - 1);
            let parent = batch[n - 1];
            if self.children_expand(&parent, leaves) {
                rest
            } else {
                let left = child_seg(parent, counts[n - 1], false);
                let right = child_seg(parent, counts[n - 1], true);
                rest.push((ids[n - 1].left, left.0, left.1)).push((ids[n - 1].right, right.0, right.1))
            }
        }
    }

    /// The children of the planned nodes, each pair with the built one first.
    pub open spec fn makes(
        &self,
        batch: Seq<ExpandEntry>,
        ids: Seq<ChildIds>,
        counts: Seq<u32>,
        plan: Seq<usize>,
        hist: Seq<GradientPairInt64>,
        made: Seq<ExpandEntry>,
    ) -> bool {
        &&& made.len() == 2 * plan.len()
        &&& forall|x: int|
            0 <= x < made.len() ==> {
                let pos = plan[x / 2] as int;
                is_child(
                    #[trigger] made[x],
                    batch[pos],
                    ids[pos],
                    counts[pos],
                    right_built(batch[pos]) != (x % 2 == 1),
                    hist,
                    unit_at(self.n_targets as int, self.n_bins as int, x, 0),
                )
            }
    }

    /// Splitting `batch` makes `now` of `was`, and `children`.
    pub open spec fn expands(
        &self,
        was: &TreeGrowth,
        batch: Seq<ExpandEntry>,
        ids: Seq<ChildIds>,
        splits: Seq<SegmentSplit>,
        counts: Seq<u32>,
        hist: Seq<GradientPairInt64>,
        made: Seq<ExpandEntry>,
        now: &TreeGrowth,
        children: Seq<ExpandEntry>,
    ) -> bool {
        let ell = &self.engine.ell;
        let before = was.partitioner.rows();
        let after = now.partitioner.rows();
        let n = batch.len() as int;
        let leaves = was.num_leaves as int;
        &&& splits.len() == n
        &&& counts.len() == n
        &&& forall|k: int|
            0 <= k < n ==> self.splits_as(&batch[k], &#[trigger] splits[k]) && splits[k].segment(after)
                == splits[k].parted(ell, before) && counts[k] == splits[k].segment(before).filter(splits[k].left(ell)).len()
        &&& forall|i: int| 0 <= i < self.n_rows && unowned(splits, n, i) ==> #[trigger] after[i] == before[i]
        &&& now.leaf_segments@ == was.leaf_segments@ + self.new_leaves(batch, ids, counts, leaves, n)
        &&& self.makes(batch, ids, counts, self.planned(batch, leaves, n), hist, made)
        &&& children == by_nid(made)
        &&& now.queue == was.queue
        &&& now.num_leaves == was.num_leaves
        &&& now.gpairs == was.gpairs
    }
}

impl GpuHistGrower {
    /// Splitting `batch` makes `now` of `was`, and `children`, by some splits of the batch's
    /// segments.
    pub open spec fn expanded(
        &self,
        was: &TreeGrowth,
        batch: Seq<ExpandEntry>,
        ids: Seq<ChildIds>,
        now: &TreeGrowth,
        children: Seq<ExpandEntry>,
    ) -> bool {
        exists|splits: Seq<SegmentSplit>, counts: Seq<u32>, hist: Seq<GradientPairInt64>, made: Seq<ExpandEntry>|
            #[trigger] self.expands(was, batch, ids, splits, counts, hist, made, now, children)
    }
}

/// The segments of the planned nodes' children.
spec fn pair_segs(batch: Seq<ExpandEntry>, counts: Seq<u32>, plan: Seq<usize>) -> Seq<Segment> {
    Seq::new(
        2 * plan.len(),
        |x: int|
            {
                let pos = plan[x / 2] as int;
                child_seg(batch[pos], counts[pos], right_built(batch[pos]) != (x % 2 == 1))
            },
    )
}

/// The children of the first `n` nodes cover what the nodes covered.
proof fn lemma_children_cover(
    grower: &GpuHistGrower,
    batch: Seq<ExpandEntry>,
    ids: Seq<ChildIds>,
    counts: Seq<u32>,
    leaves: int,
    n: int,
    i: int,
)
    requires
        0 <= n <= batch.len(),
        ids.len() == batch.len(),
        counts.len() == batch.len(),
        batch.len() <= usize::MAX,
        forall|k: int|
            0 <= k < batch.len() ==> counts[k] <= (#[trigger] batch[k]).seg_len && batch[k].seg_begin + batch[k].seg_len
                <= u32::MAX,
    ensures
        owners(leaf_segs(grower.new_leaves(batch, ids, counts, leaves, n)), i) + owners(
            pair_segs(batch, counts, grower.planned(batch, leaves, n)),
            i,
        ) == owners(entry_segs(batch.subrange(0, n)), i),
        forall|j: int|
            0 <= j < grower.planned(batch, leaves, n).len() ==> #[trigger] grower.planned(batch, leaves, n)[j] < n,
    decreases n,
{
    if n <= 0 {
        assert(entry_segs(batch.subrange(0, n)) =~= Seq::empty());
        assert(leaf_segs(grower.new_leaves(batch, ids, counts, leaves, n)) =~= Seq::empty());
        assert(pair_segs(batch, counts, grower.planned(batch, leaves, n)) =~= Seq::empty());
    } else {
        let parent = batch[n - 1];
        let c = counts[n - 1];
        lemma_children_cover(grower, batch, ids, counts, leaves, n - 1, i);
        assert(batch.subrange(0, n) =~= batch.subrange(0, n - 1).push(parent));
        lemma_entry_segs_push(batch.subrange(0, n - 1), parent, i);
        let left = child_seg(parent, c, false);
        let right = child_seg(parent, c, true);
        let plan = grower.planned(batch, leaves, n - 1);
        let rest = grower.new_leaves(batch, ids, counts, leaves, n - 1);
        if grower.children_expand(&parent, leaves) {
            let a = child_seg(parent, c, right_built(parent));
            let b = child_seg(parent, c, !right_built(parent));
            let pairs = pair_segs(batch, counts, plan);
            let now = pair_segs(batch, counts, plan.push((n - 1) as usize));
            assert forall|x: int| 0 <= x < now.len() implies now[x] == pairs.push(a).push(b)[x] by {
                if x < pairs.len() {
                    assert(plan.push((n - 1) as usize)[x / 2] == plan[x / 2]);
                }
            }
            assert(now =~= pairs.push(a).push(b));
            lemma_owners_push(pairs, a, i);
            lemma_owners_push(pairs.push(a), b, i);
        } else {
            let one = (ids[n - 1].left, left.0, left.1);
            let two = (ids[n - 1].right, right.0, right.1);
            lemma_leaf_segs_push(rest, one, i);
            lemma_leaf_segs_push(rest.push(one), two, i);
        }
    }
}

/// A row index that holds every row once holds nothing else.
proof fn lemma_rows_known(rows: Seq<u32>, n: int)
    requires
        rows.to_multiset() == all_rows(n).to_multiset(),
        0 <= n <= u32::MAX,
    ensures
        forall|i: int| 0 <= i < rows.len() ==> #[trigger] rows[i] < n,
{
    broadcast use vstd::seq_lib::group_to_multiset_ensures;

    assert forall|i: int| 0 <= i < rows.len() implies #[trigger] rows[i] < n by {
        assert(rows.contains(rows[i]));
        assert(rows.to_multiset().count(rows[i]) > 0);
        assert(all_rows(n).contains(rows[i]));
    }
}

proof fn lemma_rows_in(batch: Seq<ExpandEntry>, splits: Seq<SegmentSplit>, n: int)
    requires
        0 <= n <= batch.len(),
        splits.len() == batch.len(),
        forall|k: int| 0 <= k < batch.len() ==> (#[trigger] splits[k]).len == batch[k].seg_len,
    ensures
        rows_in(splits, n) == total_len(entry_segs(batch.subrange(0, n))),
    decreases n,
{
    if n > 0 {
        lemma_rows_in(batch, splits, n - 1);
        let segs = entry_segs(batch.subrange(0, n));
        assert(segs.drop_last() =~= entry_segs(batch.subrange(0, n - 1)));
        assert(splits[n - 1].len == batch[n - 1].seg_len);
    }
}

/// The splits of a batch can be applied together.
proof fn lemma_batch_applies(
    grower: &GpuHistGrower,
    growth: &TreeGrowth,
    batch: Seq<ExpandEntry>,
    splits: Seq<SegmentSplit>,
)
    requires
        grower.wf(),
        growth.wf(grower, batch),
        splits.len() == batch.len(),
        grower.n_rows + batch.len() <= u32::MAX,
        forall|k: int|
            0 <= k < batch.len() ==> grower.splits_as(&batch[k], &#[trigger] splits[k]) && splits[k].applies(
                &grower.engine.ell,
            ),
    ensures
        applicable(&grower.engine.ell, splits, growth.partitioner.rows()),
        forall|s: int|
            0 <= s < splits.len() ==> growth.partitioner.whole(
                (#[trigger] splits[s]).begin as int,
                splits[s].len as int,
            ),
{
    let ell = &grower.engine.ell;
    let n = grower.n_rows as int;
    let rows = growth.partitioner.rows();
    let segs = entry_segs(batch);
    lemma_rows_known(rows, n);
    lemma_parts_within(growth, batch, n);
    assert forall|i: int| 0 <= i < n implies #[trigger] owners(segs, i) <= 1 by {
        assert(owners(leaf_segs(growth.leaf_segments@), i) + owners(entry_segs(growth.queue.entries()), i) + owners(
            segs,
            i,
        ) == 1);
        lemma_owners_at_least(leaf_segs(growth.leaf_segments@), i);
        lemma_owners_at_least(entry_segs(growth.queue.entries()), i);
    }
    assert forall|k: int| 0 <= k < segs.len() implies (#[trigger] segs[k]).0 + segs[k].1 <= n by {
        assert(grower.node_ok(growth.gpairs@, &growth.partitioner, batch[k]));
    }
    lemma_total_len(segs, n);
    lemma_rows_in(batch, splits, batch.len() as int);
    assert(batch.subrange(0, batch.len() as int) =~= batch);
    assert forall|a: int, b: int, i: int| 0 <= a < b < splits.len() implies !(#[trigger] splits[a].owns(i)
        && #[trigger] splits[b].owns(i)) by {
        if splits[a].owns(i) && splits[b].owns(i) {
            lemma_owners_at_least(segs, i);
            assert(lies_in(segs[a], i) && lies_in(segs[b], i));
            assert(segs[a].0 + segs[a].1 <= n);
            assert(owners(segs, i) <= 1);
        }
    }
    assert forall|s: int| 0 <= s < splits.len() implies (#[trigger] splits[s]).applies(ell) && splits[s].lies_in(ell, rows)
        && growth.partitioner.whole(splits[s].begin as int, splits[s].len as int) by {
        assert(grower.node_ok(growth.gpairs@, &growth.partitioner, batch[s]));
        assert forall|i: int| splits[s].owns(i) implies has_row(ell, #[trigger] rows[i]) by {
            assert(rows[i] < n);
        }
    }
}

/// A node whose segment no split touched is as it was.
proof fn lemma_node_kept(
    grower: &GpuHistGrower,
    gpairs: Seq<DeviceGpairs>,
    before: &RowPartitioner,
    after: &RowPartitioner,
    e: ExpandEntry,
)
    requires
        grower.node_ok(gpairs, before, e),
        before.rows().len() == grower.n_rows,
        after.rows().len() == grower.n_rows,
        forall|i: int|
            e.seg_begin <= i < e.seg_begin + e.seg_len ==> #[trigger] after.rows()[i] == before.rows()[i],
        forall|i: int|
            e.seg_begin <= i < e.seg_begin + e.seg_len ==> #[trigger] after.side_at(i) == before.side_at(i),
    ensures
        grower.node_ok(gpairs, after, e),
{
    after.lemma_whole_kept(before, e.seg_begin as int, e.seg_len as int);
    assert(parent_rows(e, after.rows()) =~= parent_rows(e, before.rows()));
}

/// A split's children have the parent's rows between them, and the row buffer holds them as
/// the row index does.
proof fn lemma_child_rows(
    grower: &GpuHistGrower,
    before: Seq<u32>,
    after: Seq<u32>,
    ridx: Seq<u32>,
    parent: ExpandEntry,
    sp: SegmentSplit,
    n_left: u32,
)
    requires
        parent.seg_begin + parent.seg_len <= before.len() <= u32::MAX,
        after.len() == before.len(),
        ridx.len() >= before.len(),
        sp.begin == parent.seg_begin,
        sp.len == parent.seg_len,
        sp.segment(after) == sp.parted(&grower.engine.ell, before),
        sp.segment(ridx) == sp.segment(after),
        n_left <= parent.seg_len,
    ensures
        forall|right: bool|
            #[trigger] seg_rows(child_seg(parent, n_left, right), ridx) == seg_rows(
                child_seg(parent, n_left, right),
                after,
            ),
        parent_rows(parent, before).to_multiset() == (seg_rows(child_seg(parent, n_left, false), after) + seg_rows(
            child_seg(parent, n_left, true),
            after,
        )).to_multiset(),
        parent_rows(parent, before).to_multiset() == (seg_rows(child_seg(parent, n_left, true), after) + seg_rows(
            child_seg(parent, n_left, false),
            after,
        )).to_multiset(),
{
    let all = sp.segment(after);
    let l = seg_rows(child_seg(parent, n_left, false), after);
    let r = seg_rows(child_seg(parent, n_left, true), after);
    lemma_parted_rearranges(&sp, &grower.engine.ell, before);
    assert(all =~= l + r);
    assert(sp.segment(before) == parent_rows(parent, before));
    vstd::seq_lib::lemma_multiset_commutative(l, r);
    vstd::seq_lib::lemma_multiset_commutative(r, l);
    assert((l + r).to_multiset() =~= (r + l).to_multiset());
    assert forall|right: bool| #[trigger] seg_rows(child_seg(parent, n_left, right), ridx) == seg_rows(
        child_seg(parent, n_left, right),
        after,
    ) by {
        let seg = child_seg(parent, n_left, right);
        let a = seg_rows(seg, ridx);
        let b = seg_rows(seg, after);
        assert forall|x: int| 0 <= x < a.len() implies a[x] == b[x] by {
            let y = seg.0 - sp.begin + x;
            assert(0 <= y < sp.len);
            assert(sp.segment(ridx)[y] == ridx[sp.begin + y]);
            assert(sp.segment(after)[y] == after[sp.begin + y]);
        }
        assert(a =~= b);
    }
}

/// The histograms of a pair of children are those of their rows: the built one's by
/// construction, the other's by the subtraction trick.
proof fn lemma_pair_ok(
    grower: &GpuHistGrower,
    gpairs: Seq<DeviceGpairs>,
    before: &RowPartitioner,
    after: &RowPartitioner,
    parent: ExpandEntry,
    sp: SegmentSplit,
    n_left: u32,
    hist: Seq<GradientPairInt64>,
    ridx: Seq<u32>,
    m: int,
    j: int,
    second: bool,
    e: ExpandEntry,
)
    requires
        grower.wf(),
        grower.node_ok(gpairs, before, parent),
        before.rows().len() == grower.n_rows,
        after.rows().len() == grower.n_rows,
        ridx.len() >= grower.n_rows,
        sp.begin == parent.seg_begin,
        sp.len == parent.seg_len,
        sp.segment(after.rows()) == sp.parted(&grower.engine.ell, before.rows()),
        n_left == sp.segment(before.rows()).filter(sp.left(&grower.engine.ell)).len(),
        after.whole(sp.begin as int, sp.len as int),
        sp.segment(ridx) == sp.segment(after.rows()),
        0 <= j < m,
        grower.level_fits(m),
        hist.len() == 2 * m * grower.n_targets * grower.n_bins,
        e.hist@ == hist,
        e.slot == unit_at(
            grower.n_targets as int,
            grower.n_bins as int,
            if second {
                2 * j + 1
            } else {
                2 * j
            },
            0,
        ),
        (e.seg_begin, e.seg_len) == child_seg(parent, n_left, right_built(parent) != second),
        n_left <= parent.seg_len,
        forall|t: int|
            0 <= t < grower.n_targets ==> #[trigger] built_unit(
                hist,
                grower.n_targets as int,
                grower.n_bins as int,
                j,
                t,
            ) == histogram(
                &grower.engine.ell,
                gpairs[t].gpairs@,
                built_rows(parent, n_left, ridx),
                grower.n_bins as int,
            ),
        forall|t: int|
            0 <= t < grower.n_targets ==> #[trigger] other_unit(
                hist,
                grower.n_targets as int,
                grower.n_bins as int,
                j,
                t,
            ) == sibling(
                target_bins(parent.hist@, parent.slot as int, grower.n_bins as int, t),
                histogram(
                    &grower.engine.ell,
                    gpairs[t].gpairs@,
                    built_rows(parent, n_left, ridx),
                    grower.n_bins as int,
                ),
            ),
    ensures
        grower.node_ok(gpairs, after, e),
{
    let nt = grower.n_targets as int;
    let nb = grower.n_bins as int;
    let ell = &grower.engine.ell;
    let k = if second {
        2 * j + 1
    } else {
        2 * j
    };
    after.lemma_whole_part(sp.begin as int, sp.len as int, e.seg_begin as int, e.seg_len as int);
    lemma_unit_inside(2 * m, nt, nb, k, 0);
    lemma_unit_inside(2 * m, nt, nb, k, nt - 1);
    assert((nt - 1) * nb + nb == nt * nb) by (nonlinear_arith);
    lemma_child_rows(grower, before.rows(), after.rows(), ridx, parent, sp, n_left);
    let built = built_rows(parent, n_left, ridx);
    let other = seg_rows(child_seg(parent, n_left, !right_built(parent)), ridx);
    assert(other == seg_rows(child_seg(parent, n_left, !right_built(parent)), after.rows()));
    assert(built == seg_rows(child_seg(parent, n_left, right_built(parent)), ridx));
    assert(built == seg_rows(child_seg(parent, n_left, right_built(parent)), after.rows()));
    assert(parent_rows(e, after.rows()) == seg_rows((e.seg_begin, e.seg_len), after.rows()));
    assert forall|t: int| 0 <= t < nt implies #[trigger] target_bins(e.hist@, e.slot as int, nb, t) == histogram(
        ell,
        gpairs[t].gpairs@,
        parent_rows(e, after.rows()),
        nb,
    ) by {
        lemma_unit_inside(2 * m, nt, nb, k, t);
        assert(target_bins(e.hist@, e.slot as int, nb, t) == unit_bins(hist, nt, nb, k, t));
        assert(built_unit(hist, nt, nb, j, t) == unit_bins(hist, nt, nb, 2 * j, t));
        assert(other_unit(hist, nt, nb, j, t) == unit_bins(hist, nt, nb, 2 * j + 1, t));
        assert(target_bins(parent.hist@, parent.slot as int, nb, t) == histogram(
            ell,
            gpairs[t].gpairs@,
            parent_rows(parent, before.rows()),
            nb,
        ));
        lemma_subtraction_trick(ell, gpairs[t].gpairs@, parent_rows(parent, before.rows()), built, other, nb);
    }
}

/// The same pairs again.
fn copy_pairs(pairs: &Vec<GradientPairInt64>) -> (copy: Vec<GradientPairInt64>)
    ensures
        copy@ == pairs@,
{
    let mut copy: Vec<GradientPairInt64> = Vec::with_capacity(pairs.len());
    copy.extend_from_slice(pairs.as_slice());
    assert(copy@ =~= pairs@);
    copy
}

/// One child of a split, before its own split is looked for.
fn make_child(
    parent: &ExpandEntry,
    ids: &ChildIds,
    n_left: u32,
    right: bool,
    hist: &Rc<Vec<GradientPairInt64>>,
    slot: u32,
) -> (e: ExpandEntry)
    requires
        parent.depth < i32::MAX,
        n_left <= parent.seg_len,
        parent.seg_begin + parent.seg_len <= u32::MAX,
    ensures
        is_child(e, *parent, *ids, n_left, right, hist@, slot as int),
{
    let left_sum = GradientPairInt64 { grad: parent.split.left_grad, hess: parent.split.left_hess };
    ExpandEntry {
        nid: if right {
            ids.right
        } else {
            ids.left
        },
        depth: parent.depth + 1,
        seg_begin: if right {
            parent.seg_begin + n_left
        } else {
            parent.seg_begin
        },
        seg_len: if right {
            parent.seg_len - n_left
        } else {
            n_left
        },
        hist: hist.clone(),
        slot,
        sum: if right {
            parent.sum.wrapping_sub(left_sum)
        } else {
            left_sum
        },
        root_gain: if right {
            ids.right_gain
        } else {
            ids.left_gain
        },
        split: DeviceSplitCandidate::default(),
        left_stats: GradStats::default(),
        right_stats: GradStats::default(),
        cat_bits: Vec::new(),
        target_sums: copy_pairs(
            if right {
                &parent.right_target_sums
            } else {
                &parent.left_target_sums
            },
        ),
        left_target_sums: Vec::new(),
        right_target_sums: Vec::new(),
    }
}

impl GpuHistGrower {
    /// The batch is split: the tree, its queue and its row index are in order, and the nodes
    /// can be split as their splits say.
    pub open spec fn can_expand(&self, growth: &TreeGrowth, batch: Seq<ExpandEntry>, ids: Seq<ChildIds>) -> bool {
        &&& self.wf()
        &&& growth.wf(self, batch)
        &&& one_level(batch)
        &&& growth.queue.by_level() ==> growth.queue.entries().len() == 0
        &&& ids.len() == batch.len()
        &&& forall|k: int| 0 <= k < batch.len() ==> self.splittable(&#[trigger] batch[k]) && batch[k].depth < i32::MAX
        &&& self.level_fits(batch.len() as int)
        &&& self.n_rows + batch.len() <= u32::MAX
    }

    /// The splits of a batch, as the partitioner needs them.
    fn segment_splits(&self, batch: &Vec<ExpandEntry>) -> (splits: Vec<SegmentSplit>)
        requires
            self.wf(),
            forall|k: int| 0 <= k < batch.len() ==> self.splittable(&#[trigger] batch[k]),
        ensures
            splits.len() == batch.len(),
            forall|k: int|
                0 <= k < batch.len() ==> self.splits_as(&batch[k], &#[trigger] splits[k]) && splits[k].applies(
                    &self.engine.ell,
                ),
    {
        let mut splits: Vec<SegmentSplit> = Vec::with_capacity(batch.len());
        let mut k: usize = 0;
        while k < batch.len()
            invariant
                self.wf(),
                forall|k: int| 0 <= k < batch.len() ==> self.splittable(&#[trigger] batch[k]),
                k <= batch.len(),
                splits.len() == k,
                forall|j: int|
                    0 <= j < k ==> self.splits_as(&batch[j], &#[trigger] splits[j]) && splits[j].applies(
                        &self.engine.ell,
                    ),
            decreases batch.len() - k,
        {
            splits.push(self.segment_split(&batch[k]));
            k += 1;
        }
        splits
    }

    /// The children of the planned nodes, in ascending order of their node ids.
    fn make_children(
        &self,
        batch: &Vec<ExpandEntry>,
        ids: &[ChildIds],
        counts: &Vec<u32>,
        plan: &Vec<usize>,
        frontier: Vec<GradientPairInt64>,
    ) -> (result: (Vec<ExpandEntry>, Ghost<Seq<ExpandEntry>>))
        requires
            self.wf(),
            self.level_fits(plan.len() as int),
            ids.len() == batch.len(),
            counts.len() == batch.len(),
            forall|j: int| 0 <= j < plan.len() ==> #[trigger] plan[j] < batch.len(),
            forall|k: int|
                0 <= k < batch.len() ==> (#[trigger] batch[k]).depth < i32::MAX && counts[k] <= batch[k].seg_len
                    && batch[k].seg_begin + batch[k].seg_len <= u32::MAX,
        ensures
            self.makes(batch@, ids@, counts@, plan@, frontier@, result.1@),
            result.0@ == by_nid(result.1@),
    {
        let hist: Rc<Vec<GradientPairInt64>> = Rc::new(frontier);
        let mut out: Vec<ExpandEntry> = Vec::with_capacity(plan.len());
        let ghost mut made = Seq::<ExpandEntry>::empty();
        proof {
            self.lemma_level_pairs(plan.len() as int);
        }
        let mut x: usize = 0;
        while x < 2 * plan.len()
            invariant
                self.wf(),
                self.level_fits(plan.len() as int),
                2 * plan.len() <= u32::MAX,
                ids.len() == batch.len(),
                counts.len() == batch.len(),
                hist@ == frontier@,
                forall|j: int| 0 <= j < plan.len() ==> #[trigger] plan[j] < batch.len(),
                forall|k: int|
                    0 <= k < batch.len() ==> (#[trigger] batch[k]).depth < i32::MAX && counts[k] <= batch[k].seg_len
                        && batch[k].seg_begin + batch[k].seg_len <= u32::MAX,
                x <= 2 * plan.len(),
                made.len() == x,
                out@ == by_nid(made),
                forall|y: int|
                    0 <= y < x ==> {
                        let pos = plan[y / 2] as int;
                        is_child(
                            #[trigger] made[y],
                            batch[pos],
                            ids[pos],
                            counts[pos],
                            right_built(batch[pos]) != (y % 2 == 1),
                            frontier@,
                            unit_at(self.n_targets as int, self.n_bins as int, y, 0),
                        )
                    },
            decreases 2 * plan.len() - x,
        {
            let pos: usize = plan[x / 2];
            let parent: &ExpandEntry = &batch[pos];
            let right: bool = wide_lt(parent.right_stats.sum_hess, parent.left_stats.sum_hess) != (x % 2 == 1);
            let slot: u32 = self.unit_slot(plan.len(), x, 0);
            let e: ExpandEntry = make_child(parent, &ids[pos], counts[pos], right, &hist, slot);
            proof {
                lemma_by_nid(made);
            }
            let ghost before = made;
            proof {
                made = made.push(e);
                assert(made.drop_last() =~= before);
            }
            insert_by_nid(&mut out, e);
            x += 1;
        }
        (out, Ghost(made))
    }

    /// Split a batch: part the rows, record the children that are leaves already, and build
    /// the histograms of the others, which pass into the caller's hands.
    #[verifier::rlimit(40)]
    pub fn expand(&self, growth: &mut TreeGrowth, batch: Vec<ExpandEntry>, ids: &[ChildIds]) -> (result: Result<
        Vec<ExpandEntry>,
        Error,
    >)
        requires
            self.can_expand(old(growth), batch@, ids@),
        ensures
            result is Ok,
            result matches Ok(children) ==> final(growth).wf(self, children@),
            result matches Ok(children) ==> self.expanded(old(growth), batch@, ids@, final(growth), children@),
    {
        let ghost was = *growth;
        let ghost n = self.n_rows as int;
        let ghost m = batch.len() as int;
        let ghost leaves = growth.num_leaves as int;
        let splits: Vec<SegmentSplit> = self.segment_splits(&batch);
        proof {
            lemma_batch_applies(self, growth, batch@, splits@);
        }
        let counts: Vec<u32> = match growth.partitioner.partition(
            &self.engine.hardware,
            &self.engine.ell,
            splits.as_slice(),
        ) {
            Ok(counts) => counts,
            Err(e) => {
                return Err(e);
            },
        };
        proof {
            self.lemma_parted(&was, growth, batch@, splits@, counts@);
        }
        let mut plan: Vec<usize> = Vec::new();
        let mut k: usize = 0;
        proof {
            assert(was.leaf_segments@ + self.new_leaves(batch@, ids@, counts@, leaves, 0) =~= was.leaf_segments@);
        }
        while k < batch.len()
            invariant
                k <= batch.len(),
                m == batch.len(),
                ids.len() == batch.len(),
                counts.len() == batch.len(),
                leaves == was.num_leaves,
                growth.num_leaves == was.num_leaves,
                growth.queue == was.queue,
                growth.gpairs == was.gpairs,
                self.can_expand(&was, batch@, ids@),
                self.parted(&was, growth, batch@, splits@, counts@),
                growth.leaf_segments@ == was.leaf_segments@ + self.new_leaves(batch@, ids@, counts@, leaves, k as int),
                plan@ == self.planned(batch@, leaves, k as int),
            decreases batch.len() - k,
        {
            let entry: &ExpandEntry = &batch[k];
            if self.child_can_expand(entry, growth.num_leaves) {
                plan.push(k);
            } else {
                let n_left: u32 = counts[k];
                proof {
                    assert(counts[k as int] <= batch[k as int].seg_len);
                }
                growth.leaf_segments.push((ids[k].left, entry.seg_begin, n_left));
                growth.leaf_segments.push((ids[k].right, entry.seg_begin + n_left, entry.seg_len - n_left));
                proof {
                    assert(growth.leaf_segments@ =~= was.leaf_segments@ + self.new_leaves(
                        batch@,
                        ids@,
                        counts@,
                        leaves,
                        k + 1,
                    ));
                }
            }
            k += 1;
        }
        proof {
            self.lemma_planned(batch@, leaves, m);
            self.lemma_plan_ok(&was, growth, batch@, ids@, splits@, counts@, plan@);
        }
        let frontier: Vec<GradientPairInt64> = if plan.len() == 0 {
            Vec::new()
        } else {
            self.fill_frontier(&batch, &plan, &counts, &growth.gpairs, growth.partitioner.ridx())
        };
        let ghost hist = frontier@;
        let (children, Ghost(made)) = self.make_children(&batch, ids, &counts, &plan, frontier);
        proof {
            self.lemma_expanded(&was, growth, batch@, ids@, splits@, counts@, plan@, hist, made);
            assert(self.expands(&was, batch@, ids@, splits@, counts@, hist, made, growth, children@));
        }
        Ok(children)
    }

    /// The row index after the batch was parted.
    spec fn parted(
        &self,
        was: &TreeGrowth,
        now: &TreeGrowth,
        batch: Seq<ExpandEntry>,
        splits: Seq<SegmentSplit>,
        counts: Seq<u32>,
    ) -> bool {
        let ell = &self.engine.ell;
        &&& now.partitioner.wf()
        &&& now.partitioner.rows().len() == self.n_rows
        &&& splits.len() == batch.len()
        &&& counts.len() == batch.len()
        &&& forall|k: int|
            0 <= k < batch.len() ==> self.splits_as(&batch[k], &#[trigger] splits[k]) && splits[k].segment(
                now.partitioner.rows(),
            ) == splits[k].parted(ell, was.partitioner.rows()) && counts[k] == splits[k].segment(
                was.partitioner.rows(),
            ).filter(splits[k].left(ell)).len() && now.partitioner.whole(
                splits[k].begin as int,
                splits[k].len as int,
            ) && splits[k].segment(now.partitioner.front()) == splits[k].segment(now.partitioner.rows())
        &&& forall|k: int| 0 <= k < batch.len() ==> counts[k] <= (#[trigger] batch[k]).seg_len && batch[k].seg_begin
            + batch[k].seg_len <= self.n_rows
        &&& forall|i: int|
            0 <= i < self.n_rows && unowned(splits, splits.len() as int, i) ==> #[trigger] now.partitioner.rows()[i]
                == was.partitioner.rows()[i]
        &&& forall|i: int|
            0 <= i < self.n_rows && unowned(splits, splits.len() as int, i) ==> #[trigger] now.partitioner.side_at(i)
                == was.partitioner.side_at(i)
        &&& now.partitioner.rows().to_multiset() == all_rows(self.n_rows as int).to_multiset()
        &&& now.partitioner.front().len() == self.n_rows
    }

    proof fn lemma_parted(
        &self,
        was: &TreeGrowth,
        now: &TreeGrowth,
        batch: Seq<ExpandEntry>,
        splits: Seq<SegmentSplit>,
        counts: Seq<u32>,
    )
        requires
            self.wf(),
            was.wf(self, batch),
            applicable(&self.engine.ell, splits, was.partitioner.rows()),
            now.partitioner.wf(),
            now.partitioner.rows().len() == was.partitioner.rows().len(),
            splits.len() == batch.len(),
            counts.len() == batch.len(),
            forall|k: int| 0 <= k < batch.len() ==> self.splits_as(&batch[k], &#[trigger] splits[k]),
            forall|s: int|
                0 <= s < splits.len() ==> {
                    let sp = #[trigger] splits[s];
                    &&& counts[s] == sp.segment(was.partitioner.rows()).filter(sp.left(&self.engine.ell)).len()
                    &&& sp.segment(now.partitioner.rows()) == sp.parted(&self.engine.ell, was.partitioner.rows())
                    &&& now.partitioner.whole(sp.begin as int, sp.len as int)
                    &&& sp.segment(now.partitioner.front()) == sp.segment(now.partitioner.rows())
                },
            forall|i: int|
                0 <= i < self.n_rows && unowned(splits, splits.len() as int, i)
                    ==> #[trigger] now.partitioner.rows()[i] == was.partitioner.rows()[i],
            forall|i: int|
                0 <= i < self.n_rows && unowned(splits, splits.len() as int, i)
                    ==> #[trigger] now.partitioner.side_at(i) == was.partitioner.side_at(i),
        ensures
            self.parted(was, now, batch, splits, counts),
    {
        lemma_partition_rearranges(&self.engine.ell, splits, was.partitioner.rows(), now.partitioner.rows());
        now.partitioner.lemma_front_len();
        assert forall|k: int| 0 <= k < batch.len() implies counts[k] <= (#[trigger] batch[k]).seg_len
            && batch[k].seg_begin + batch[k].seg_len <= self.n_rows by {
            assert(self.node_ok(was.gpairs@, &was.partitioner, batch[k]));
            let sp = splits[k];
            lemma_parted_rearranges(&sp, &self.engine.ell, was.partitioner.rows());
        }
    }

    pub(crate) proof fn lemma_planned(&self, batch: Seq<ExpandEntry>, leaves: int, n: int)
        requires
            0 <= n <= batch.len() <= usize::MAX,
        ensures
            self.planned(batch, leaves, n).len() <= n,
            forall|j: int|
                0 <= j < self.planned(batch, leaves, n).len() ==> #[trigger] self.planned(batch, leaves, n)[j] < n,
        decreases n,
    {
        if n > 0 {
            self.lemma_planned(batch, leaves, n - 1);
        }
    }

    proof fn lemma_plan_ok(
        &self,
        was: &TreeGrowth,
        now: &TreeGrowth,
        batch: Seq<ExpandEntry>,
        ids: Seq<ChildIds>,
        splits: Seq<SegmentSplit>,
        counts: Seq<u32>,
        plan: Seq<usize>,
    )
        requires
            self.can_expand(was, batch, ids),
            self.parted(was, now, batch, splits, counts),
            now.gpairs == was.gpairs,
            plan.len() <= batch.len(),
            forall|j: int| 0 <= j < plan.len() ==> #[trigger] plan[j] < batch.len(),
        ensures
            self.level_fits(plan.len() as int),
            plan.len() > 0 ==> plan_ok(self, batch, plan, counts, now.gpairs@, now.partitioner.front()),
    {
        let nt = self.n_targets as int;
        let nb = self.n_bins as int;
        let mc = self.engine.max_chunks as int;
        let m = batch.len() as int;
        let p = plan.len() as int;
        assert(p * mc <= m * mc && 2 * p * nt <= 2 * m * nt) by (nonlinear_arith)
            requires
                p <= m,
                0 <= mc,
                0 <= nt,
        ;
        let a = p * mc;
        let b = m * mc;
        let c = 2 * p * nt;
        let d = 2 * m * nt;
        assert(a * nb <= b * nb && c * nb <= d * nb) by (nonlinear_arith)
            requires
                a <= b,
                c <= d,
                0 <= nb,
        ;
        let ridx = now.partitioner.front();
        let rows = now.partitioner.rows();
        lemma_rows_known(rows, self.n_rows as int);
        assert forall|i: int| 0 <= i < plan.len() implies node_fits(
            self,
            batch[(#[trigger] plan[i]) as int],
            counts[plan[i] as int],
            ridx,
        ) by {
            assert(self.node_ok(was.gpairs@, &was.partitioner, batch[plan[i] as int]));
        }
        assert forall|i: int, t: int| 0 <= i < plan.len() && 0 <= t < nt implies rows_ok(
            &self.engine.ell,
            (#[trigger] now.gpairs@[t]).gpairs@,
            parent_rows(batch[(#[trigger] plan[i]) as int], ridx),
        ) by {
            let k = plan[i] as int;
            let sp = splits[k];
            assert(was.gpairs[t].gpairs.len() == self.n_rows);
            assert(parent_rows(batch[k], ridx) == sp.segment(ridx));
            assert forall|x: int| 0 <= x < parent_rows(batch[k], ridx).len() implies has_row(
                &self.engine.ell,
                #[trigger] parent_rows(batch[k], ridx)[x],
            ) && parent_rows(batch[k], ridx)[x] < now.gpairs@[t].gpairs@.len() by {
                assert(sp.segment(rows)[x] == rows[sp.begin + x]);
            }
        }
        assert forall|i: int| 0 <= i < plan.len() implies batch[(#[trigger] plan[i]) as int].hist@
            == batch[plan[0] as int].hist@ by {
            assert(batch[plan[i] as int].depth == batch[plan[0] as int].depth);
        }
    }

    /// The state that splitting a batch leaves is in order.
    #[verifier::rlimit(40)]
    proof fn lemma_expanded(
        &self,
        was: &TreeGrowth,
        now: &TreeGrowth,
        batch: Seq<ExpandEntry>,
        ids: Seq<ChildIds>,
        splits: Seq<SegmentSplit>,
        counts: Seq<u32>,
        plan: Seq<usize>,
        hist: Seq<GradientPairInt64>,
        made: Seq<ExpandEntry>,
    )
        requires
            self.can_expand(was, batch, ids),
            self.parted(was, now, batch, splits, counts),
            batch.len() <= usize::MAX,
            now.gpairs == was.gpairs,
            now.queue == was.queue,
            now.num_leaves == was.num_leaves,
            plan == self.planned(batch, was.num_leaves as int, batch.len() as int),
            self.level_fits(plan.len() as int),
            now.leaf_segments@ == was.leaf_segments@ + self.new_leaves(
                batch,
                ids,
                counts,
                was.num_leaves as int,
                batch.len() as int,
            ),
            self.makes(batch, ids, counts, plan, hist, made),
            plan.len() > 0 ==> hist.len() == 2 * plan.len() * self.n_targets * self.n_bins,
            forall|i: int, t: int|
                0 <= i < plan.len() && 0 <= t < self.n_targets ==> #[trigger] built_unit(
                    hist,
                    self.n_targets as int,
                    self.n_bins as int,
                    i,
                    t,
                ) == histogram(
                    &self.engine.ell,
                    now.gpairs[t].gpairs@,
                    built_rows(batch[plan[i] as int], counts[plan[i] as int], now.partitioner.front()),
                    self.n_bins as int,
                ),
            forall|i: int, t: int|
                0 <= i < plan.len() && 0 <= t < self.n_targets ==> #[trigger] other_unit(
                    hist,
                    self.n_targets as int,
                    self.n_bins as int,
                    i,
                    t,
                ) == sibling(
                    target_bins(
                        batch[plan[i] as int].hist@,
                        batch[plan[i] as int].slot as int,
                        self.n_bins as int,
                        t,
                    ),
                    histogram(
                        &self.engine.ell,
                        now.gpairs[t].gpairs@,
                        built_rows(batch[plan[i] as int], counts[plan[i] as int], now.partitioner.front()),
                        self.n_bins as int,
                    ),
                ),
        ensures
            now.wf(self, by_nid(made)),
    {
        let n = self.n_rows as int;
        let m = batch.len() as int;
        let leaves = was.num_leaves as int;
        let children = by_nid(made);
        let fresh = self.new_leaves(batch, ids, counts, leaves, m);
        let queue = now.queue.entries();
        self.lemma_planned(batch, leaves, m);
        lemma_by_nid(made);
        lemma_parts_within(was, batch, n);
        assert(batch.subrange(0, m) =~= batch);
        assert(entry_segs(made) =~= pair_segs(batch, counts, plan)) by {
            assert forall|x: int| 0 <= x < made.len() implies entry_segs(made)[x] == pair_segs(batch, counts, plan)[x] by {
                let pos = plan[x / 2] as int;
                assert(is_child(
                    made[x],
                    batch[pos],
                    ids[pos],
                    counts[pos],
                    right_built(batch[pos]) != (x % 2 == 1),
                    hist,
                    unit_at(self.n_targets as int, self.n_bins as int, x, 0),
                ));
            }
        }
        assert forall|i: int| 0 <= i < n implies #[trigger] owners(leaf_segs(now.leaf_segments@), i) + owners(
            entry_segs(queue),
            i,
        ) + owners(entry_segs(children), i) == 1 by {
            lemma_children_cover(self, batch, ids, counts, leaves, m, i);
            assert(leaf_segs(now.leaf_segments@) =~= leaf_segs(was.leaf_segments@) + leaf_segs(fresh));
            lemma_owners_concat(leaf_segs(was.leaf_segments@), leaf_segs(fresh), i);
            assert(owners(leaf_segs(was.leaf_segments@), i) + owners(entry_segs(queue), i) + owners(
                entry_segs(batch),
                i,
            ) == 1);
            assert(owners(entry_segs(children), i) == owners(entry_segs(made), i));
        }
        self.lemma_new_leaves_within(was, now, batch, ids, splits, counts, m);
        assert forall|k: int| 0 <= k < now.leaf_segments.len() implies (#[trigger] now.leaf_segments[k]).1
            + now.leaf_segments[k].2 <= n by {
            if k < was.leaf_segments.len() {
                assert(now.leaf_segments[k] == was.leaf_segments[k]);
            } else {
                assert(now.leaf_segments[k] == fresh[k - was.leaf_segments.len()]);
            }
        }
        assert forall|k: int| 0 <= k < queue.len() implies self.node_ok(
            now.gpairs@,
            &now.partitioner,
            #[trigger] queue[k],
        ) by {
            let e = queue[k];
            assert(self.node_ok(was.gpairs@, &was.partitioner, e));
            assert forall|i: int| e.seg_begin <= i < e.seg_begin + e.seg_len implies unowned(
                splits,
                splits.len() as int,
                i,
            ) by {
                self.lemma_not_in_batch(was, batch, k, i);
                assert forall|s: int| 0 <= s < splits.len() implies !#[trigger] splits[s].owns(i) by {
                    assert(!lies_in(entry_segs(batch)[s], i));
                }
            }
            assert forall|i: int| e.seg_begin <= i < e.seg_begin + e.seg_len implies #[trigger] now.partitioner.rows()[i]
                == was.partitioner.rows()[i] by {
                assert(unowned(splits, splits.len() as int, i));
            }
            assert forall|i: int| e.seg_begin <= i < e.seg_begin + e.seg_len implies #[trigger] now.partitioner.side_at(
                i,
            ) == was.partitioner.side_at(i) by {
                assert(unowned(splits, splits.len() as int, i));
            }
            lemma_node_kept(self, was.gpairs@, &was.partitioner, &now.partitioner, e);
        }
        assert forall|x: int| 0 <= x < made.len() implies self.node_ok(
            now.gpairs@,
            &now.partitioner,
            #[trigger] made[x],
        ) by {
            let j = x / 2;
            let pos = plan[j] as int;
            let second = x % 2 == 1;
            assert(is_child(
                made[x],
                batch[pos],
                ids[pos],
                counts[pos],
                right_built(batch[pos]) != (x % 2 == 1),
                hist,
                unit_at(self.n_targets as int, self.n_bins as int, x, 0),
            ));
            assert(self.node_ok(was.gpairs@, &was.partitioner, batch[pos]));
            assert(counts[pos] <= batch[pos].seg_len);
            let sp = splits[pos];
            assert(self.splits_as(&batch[pos], &sp));
            lemma_pair_ok(
                self,
                was.gpairs@,
                &was.partitioner,
                &now.partitioner,
                batch[pos],
                sp,
                counts[pos],
                hist,
                now.partitioner.front(),
                plan.len() as int,
                j,
                second,
                made[x],
            );
        }
        assert forall|k: int| 0 <= k < children.len() implies self.node_ok(
            now.gpairs@,
            &now.partitioner,
            #[trigger] children[k],
        ) by {
            assert(made.contains(children[k]));
        }
        lemma_tile_parts(now, children, n);
        if now.queue.by_level() {
            assert(queue + children =~= children);
            assert forall|a: int, b: int| 0 <= a < children.len() && 0 <= b < children.len() implies (
            #[trigger] children[a]).depth == (#[trigger] children[b]).depth && children[a].hist@ == children[b].hist@ by {
                assert(made.contains(children[a]) && made.contains(children[b]));
                let x = choose|x: int| 0 <= x < made.len() && made[x] == children[a];
                let y = choose|y: int| 0 <= y < made.len() && made[y] == children[b];
                let p = plan[x / 2] as int;
                let q = plan[y / 2] as int;
                assert(batch[p].depth == batch[q].depth);
            }
        }
    }

    proof fn lemma_new_leaves_within(
        &self,
        was: &TreeGrowth,
        now: &TreeGrowth,
        batch: Seq<ExpandEntry>,
        ids: Seq<ChildIds>,
        splits: Seq<SegmentSplit>,
        counts: Seq<u32>,
        n: int,
    )
        requires
            self.parted(was, now, batch, splits, counts),
            self.n_rows <= u32::MAX,
            0 <= n <= batch.len(),
        ensures
            forall|k: int|
                0 <= k < self.new_leaves(batch, ids, counts, was.num_leaves as int, n).len() ==> (
                #[trigger] self.new_leaves(batch, ids, counts, was.num_leaves as int, n)[k]).1 + self.new_leaves(
                    batch,
                    ids,
                    counts,
                    was.num_leaves as int,
                    n,
                )[k].2 <= self.n_rows,
        decreases n,
    {
        if n > 0 {
            self.lemma_new_leaves_within(was, now, batch, ids, splits, counts, n - 1);
            assert(counts[n - 1] <= batch[n - 1].seg_len);
            let leaves = was.num_leaves as int;
            let rest = self.new_leaves(batch, ids, counts, leaves, n - 1);
            let all = self.new_leaves(batch, ids, counts, leaves, n);
            assert forall|k: int| 0 <= k < all.len() implies (#[trigger] all[k]).1 + all[k].2 <= self.n_rows by {
                if k < rest.len() {
                    assert(all[k] == rest[k]);
                }
            }
        }
    }

    /// A queued node's rows are in none of the batch's segments.
    proof fn lemma_not_in_batch(&self, growth: &TreeGrowth, batch: Seq<ExpandEntry>, k: int, i: int)
        requires
            growth.wf(self, batch),
            0 <= k < growth.queue.entries().len(),
            lies_in(
                (growth.queue.entries()[k].seg_begin, growth.queue.entries()[k].seg_len),
                i,
            ),
        ensures
            forall|s: int| 0 <= s < batch.len() ==> !lies_in(#[trigger] entry_segs(batch)[s], i),
    {
        let n = self.n_rows as int;
        let queue = entry_segs(growth.queue.entries());
        lemma_parts_within(growth, batch, n);
        assert(self.node_ok(growth.gpairs@, &growth.partitioner, growth.queue.entries()[k]));
        assert(owners(leaf_segs(growth.leaf_segments@), i) + owners(queue, i) + owners(entry_segs(batch), i) == 1);
        lemma_owners_at_least(leaf_segs(growth.leaf_segments@), i);
        lemma_owners_at_least(queue, i);
        lemma_owners_at_least(entry_segs(batch), i);
        assert(lies_in(queue[k], i));
    }
}

/// The sum of a column of gradient pairs.
pub open spec fn column_sum(column: Seq<GradientPairInt64>) -> PairSum {
    total(column.len() as int, |i: int| exact(column[i]))
}

/// The sum of some gradient pairs. Exact in fixed point, whatever the order.
fn sum_pairs(column: &Vec<GradientPairInt64>) -> (sum: GradientPairInt64)
    ensures
        sum == wrap(column_sum(column@)),
{
    let mut sum = GradientPairInt64 { grad: 0, hess: 0 };
    let ghost f = |i: int| exact(column[i]);
    let mut i: usize = 0;
    proof {
        lemma_wrap_exact(sum);
        assert(exact(sum) == total(0, f));
    }
    while i < column.len()
        invariant
            i <= column.len(),
            f == (|i: int| exact(column[i])),
            sum == wrap(total(i as int, f)),
        decreases column.len() - i,
    {
        let ghost was = sum;
        sum = sum.wrapping_add(column[i]);
        proof {
            lemma_wrap_plus(total(i as int, f), exact(column[i as int]));
            lemma_wrap_exact(column[i as int]);
        }
        i += 1;
    }
    sum
}

/// Each target's sum of its column.
pub fn target_sums(columns: &Vec<Vec<GradientPairInt64>>) -> (sums: Vec<GradientPairInt64>)
    ensures
        sums.len() == columns.len(),
        forall|t: int| 0 <= t < columns.len() ==> #[trigger] sums[t] == wrap(column_sum(columns[t]@)),
{
    let mut sums: Vec<GradientPairInt64> = Vec::with_capacity(columns.len());
    let mut t: usize = 0;
    while t < columns.len()
        invariant
            t <= columns.len(),
            sums.len() == t,
            forall|s: int| 0 <= s < t ==> #[trigger] sums[s] == wrap(column_sum(columns[s]@)),
        decreases columns.len() - t,
    {
        sums.push(sum_pairs(&columns[t]));
        t += 1;
    }
    sums
}

/// The first of the columns that does not have `n` gradient pairs.
pub open spec fn first_misfit(columns: Seq<Vec<GradientPairInt64>>, n: int, t: int) -> bool {
    &&& 0 <= t < columns.len()
    &&& columns[t].len() != n
    &&& forall|s: int| 0 <= s < t ==> (#[trigger] columns[s]).len() == n
}

impl GpuHistGrower {
    /// The root of a tree over these gradients, before its split is looked for.
    pub open spec fn is_root(&self, columns: Seq<Vec<GradientPairInt64>>, root_gain: u32, root: ExpandEntry) -> bool {
        let sums = Seq::new(columns.len(), |t: int| wrap(column_sum(columns[t]@)));
        &&& root.nid == 0
        &&& root.depth == 0
        &&& root.seg_begin == 0
        &&& root.seg_len == self.n_rows
        &&& root.slot == 0
        &&& root.hist@.len() == self.n_targets * self.n_bins
        &&& root.sum == wrap(column_sum(sums))
        &&& root.root_gain == root_gain
        &&& root.split == (DeviceSplitCandidate {
            loss_chg: 0,
            sindex: 0,
            split_value: 0,
            left_grad: 0,
            left_hess: 0,
            is_cat: false,
        })
        &&& root.left_stats == (GradStats { sum_grad: 0, sum_hess: 0 })
        &&& root.right_stats == (GradStats { sum_grad: 0, sum_hess: 0 })
        &&& root.cat_bits@ == Seq::<u32>::empty()
        &&& root.target_sums@ == (if self.n_targets > 1 {
            sums
        } else {
            Seq::empty()
        })
        &&& root.left_target_sums@ == Seq::<GradientPairInt64>::empty()
        &&& root.right_target_sums@ == Seq::<GradientPairInt64>::empty()
    }

    /// Begin a tree: all rows in the root, and the root's histograms built.
    pub fn init_root(&self, columns: &Vec<Vec<GradientPairInt64>>, root_gain: u32) -> (result: Result<
        (TreeGrowth, ExpandEntry),
        Error,
    >)
        requires
            self.wf(),
            columns.len() == self.n_targets,
            self.n_targets * self.n_bins <= u32::MAX,
            self.engine.max_chunks * self.n_bins <= u32::MAX,
        ensures
            result is Ok <==> forall|t: int| 0 <= t < columns.len() ==> (#[trigger] columns[t]).len() == self.n_rows,
            result matches Err(e) ==> exists|t: int|
                #[trigger] first_misfit(columns@, self.n_rows as int, t) && e == (Error::GpairCount {
                    expected: self.n_rows,
                    got: columns[t].len(),
                }),
            result matches Ok((growth, root)) ==> {
                &&& growth.wf(self, Seq::empty().push(root))
                &&& growth.partitioner.rows() == all_rows(self.n_rows as int)
                &&& growth.queue.entries().len() == 0
                &&& growth.leaf_segments.len() == 0
                &&& growth.num_leaves == 1
                &&& forall|t: int| 0 <= t < self.n_targets ==> (#[trigger] growth.gpairs[t]).gpairs@ == columns[t]@
                &&& self.is_root(columns@, root_gain, root)
            },
    {
        let ghost nt = self.n_targets as int;
        let ghost nb = self.n_bins as int;
        let mut gpairs: Vec<DeviceGpairs> = Vec::with_capacity(columns.len());
        let mut t: usize = 0;
        while t < columns.len()
            invariant
                self.wf(),
                t <= columns.len(),
                gpairs.len() == t,
                forall|s: int| 0 <= s < t ==> (#[trigger] gpairs[s]).gpairs@ == columns[s]@,
                forall|s: int| 0 <= s < t ==> (#[trigger] columns[s]).len() == self.n_rows,
            decreases columns.len() - t,
        {
            match self.engine.upload_gpairs(columns[t].as_slice()) {
                Ok(column) => gpairs.push(column),
                Err(e) => {
                    assert(first_misfit(columns@, self.n_rows as int, t as int));
                    return Err(e);
                },
            }
            t += 1;
        }
        let partitioner: RowPartitioner = RowPartitioner::all_rows(self.n_rows);
        let rows: DeviceRows = self.engine.upload_rows(partitioner.ridx().as_slice());
        let mut hist: Vec<GradientPairInt64> = self.engine.zeroed(self.n_targets * self.n_bins);
        proof {
            partitioner.lemma_front_len();
            assert(rows.rows() =~= partitioner.rows());
            assert(partitioner.rows() =~= all_rows(self.n_rows as int));
            assert forall|s: int| 0 <= s < nt implies #[trigger] zero_target(hist@, nb, s) by {
                assert(0 <= s * nb && s * nb + nb <= nt * nb) by (nonlinear_arith)
                    requires
                        0 <= s,
                        s + 1 <= nt,
                        0 <= nb,
                ;
                assert forall|b: int| 0 <= b < nb implies hist[s * nb + b] == #[trigger] zero_pair(b) by {
                    assert(zero_pair(s * nb + b) == zero_pair(b));
                }
            }
        }
        let mut t: usize = 0;
        while t < self.n_targets
            invariant
                self.wf(),
                nt == self.n_targets,
                nb == self.n_bins,
                columns.len() == self.n_targets,
                gpairs.len() == self.n_targets,
                self.n_targets * self.n_bins <= u32::MAX,
                self.engine.max_chunks * self.n_bins <= u32::MAX,
                forall|s: int| 0 <= s < nt ==> (#[trigger] gpairs[s]).gpairs@ == columns[s]@,
                forall|s: int| 0 <= s < nt ==> (#[trigger] columns[s]).len() == self.n_rows,
                rows.rows() == all_rows(self.n_rows as int),
                rows.base == 0,
                rows.n == self.n_rows,
                rows.ridx.len() == self.n_rows,
                hist.len() == nt * nb,
                t <= self.n_targets,
                forall|s: int| t <= s < nt ==> #[trigger] zero_target(hist@, nb, s),
                forall|s: int|
                    0 <= s < t ==> #[trigger] target_bins(hist@, 0, nb, s) == histogram(
                        &self.engine.ell,
                        gpairs[s].gpairs@,
                        all_rows(self.n_rows as int),
                        nb,
                    ),
            decreases self.n_targets - t,
        {
            let ghost was = hist@;
            proof {
                assert(0 <= t * nb && t * nb + nb <= nt * nb) by (nonlinear_arith)
                    requires
                        0 <= t,
                        t + 1 <= nt,
                        0 <= nb,
                ;
                assert(zero_target(hist@, nb, t as int));
                assert(gpairs[t as int].gpairs@ == columns[t as int]@);
                assert(columns[t as int].len() == self.n_rows);
            }
            self.engine.build_into(&gpairs[t], &rows, &mut hist, (t * self.n_bins) as u32);
            proof {
                assert forall|s: int| 0 <= s < nt && s != t implies #[trigger] target_bins(hist@, 0, nb, s) == target_bins(
                    was,
                    0,
                    nb,
                    s,
                ) by {
                    lemma_target_apart(nt, nb, s, t as int);
                    assert(target_bins(hist@, 0, nb, s) =~= target_bins(was, 0, nb, s));
                }
                assert forall|s: int| t + 1 <= s < nt implies #[trigger] zero_target(hist@, nb, s) by {
                    assert(zero_target(was, nb, s));
                    lemma_target_apart(nt, nb, s, t as int);
                    assert(target_bins(hist@, 0, nb, s) == target_bins(was, 0, nb, s));
                    assert forall|b: int| 0 <= b < nb implies hist[s * nb + b] == #[trigger] zero_pair(b) by {
                        assert(was[s * nb + b] == zero_pair(b));
                        assert(target_bins(hist@, 0, nb, s)[b] == target_bins(was, 0, nb, s)[b]);
                    }
                }
                assert forall|s: int| 0 <= s < t + 1 implies #[trigger] target_bins(hist@, 0, nb, s) == histogram(
                    &self.engine.ell,
                    gpairs[s].gpairs@,
                    all_rows(self.n_rows as int),
                    nb,
                ) by {
                    if s < t {
                        assert(target_bins(hist@, 0, nb, s) == target_bins(was, 0, nb, s));
                    }
                }
            }
            t += 1;
        }
        let sums: Vec<GradientPairInt64> = target_sums(columns);
        assert(sums@ =~= Seq::new(columns@.len(), |t: int| wrap(column_sum(columns[t]@))));
        let sum: GradientPairInt64 = sum_pairs(&sums);
        let root = ExpandEntry {
            nid: 0,
            depth: 0,
            seg_begin: 0,
            seg_len: self.n_rows as u32,
            hist: Rc::new(hist),
            slot: 0,
            sum,
            root_gain,
            split: DeviceSplitCandidate::default(),
            left_stats: GradStats::default(),
            right_stats: GradStats::default(),
            cat_bits: Vec::new(),
            target_sums: if self.is_multi() {
                sums
            } else {
                Vec::new()
            },
            left_target_sums: Vec::new(),
            right_target_sums: Vec::new(),
        };
        let growth = TreeGrowth {
            partitioner,
            queue: ExpandQueue::new(self.param.grow_policy),
            num_leaves: 1,
            leaf_segments: Vec::new(),
            gpairs,
        };
        proof {
            let held = Seq::empty().push(root);
            let n = self.n_rows as int;
            assert(parent_rows(root, growth.partitioner.rows()) =~= all_rows(n));
            assert(self.node_ok(growth.gpairs@, &growth.partitioner, root)) by {
                assert forall|t: int| 0 <= t < nt implies #[trigger] target_bins(root.hist@, 0, nb, t) == histogram(
                    &self.engine.ell,
                    growth.gpairs@[t].gpairs@,
                    parent_rows(root, growth.partitioner.rows()),
                    nb,
                ) by {}
            }
            assert forall|i: int| 0 <= i < n implies #[trigger] owners(leaf_segs(growth.leaf_segments@), i) + owners(
                entry_segs(growth.queue.entries()),
                i,
            ) + owners(entry_segs(held), i) == 1 by {
                lemma_entry_segs_push(Seq::empty(), root, i);
                assert(entry_segs(Seq::<ExpandEntry>::empty()) =~= Seq::empty());
                assert(entry_segs(growth.queue.entries()) =~= Seq::empty());
                assert(leaf_segs(growth.leaf_segments@) =~= Seq::empty());
            }
            assert forall|t: int| 0 <= t < nt implies (#[trigger] growth.gpairs[t]).gpairs.len() == n by {
                assert(columns[t].len() == self.n_rows);
            }
            lemma_tile_parts(&growth, held, n);
        }
        Ok((growth, root))
    }

    /// Whether a batch of `m` splits is small enough for 32-bit slots and work tables.
    pub fn fits_level(&self, m: usize) -> (fits: bool)
        requires
            self.wf(),
        ensures
            fits == self.level_fits(m as int),
    {
        let ghost nt = self.n_targets as int;
        let ghost nb = self.n_bins as int;
        let ghost mc = self.engine.max_chunks as int;
        if m == 0 {
            return true;
        }
        proof {
            self.lemma_some_bins();
            assert(m <= m * nt && 2 * m * nt == 2 * (m * nt)) by (nonlinear_arith)
                requires
                    1 <= nt,
                    0 <= m,
            ;
            let all = 2 * m * nt;
            let items = m * mc;
            assert(all <= all * nb && items <= items * nb && 0 <= items) by (nonlinear_arith)
                requires
                    1 <= nb,
                    0 <= all,
                    0 <= m,
                    1 <= mc,
                    items == m * mc,
            ;
            assert(m <= m * mc) by (nonlinear_arith)
                requires
                    0 <= m,
                    1 <= mc,
            ;
        }
        if m > u32::MAX as usize || self.n_targets > u32::MAX as usize || self.n_bins > u32::MAX as usize {
            proof {
                let all = 2 * m * nt;
                assert(nt <= all) by (nonlinear_arith)
                    requires
                        1 <= m,
                        1 <= nt,
                        all == 2 * m * nt,
                ;
                assert(nb <= all * nb) by (nonlinear_arith)
                    requires
                        1 <= all,
                        1 <= nb,
                ;
            }
            return false;
        }
        let a: u64 = m as u64;
        let nodes: u64 = match a.checked_mul(2 * self.n_targets as u64) {
            Some(x) => x,
            None => {
                assert(m * (2 * nt) == 2 * m * nt) by (nonlinear_arith);
                return false;
            },
        };
        assert(m * (2 * nt) == 2 * m * nt) by (nonlinear_arith);
        let bins: u64 = match nodes.checked_mul(self.n_bins as u64) {
            Some(x) => x,
            None => {
                return false;
            },
        };
        let items: u64 = match a.checked_mul(self.engine.max_chunks as u64) {
            Some(x) => x,
            None => {
                return false;
            },
        };
        let cells: u64 = match items.checked_mul(self.n_bins as u64) {
            Some(x) => x,
            None => {
                return false;
            },
        };
        bins <= u32::MAX as u64 && items <= u32::MAX as u64 && cells <= u32::MAX as u64
    }
}

/// Target `t`'s bins of a single node are zero.
spec fn zero_target(hist: Seq<GradientPairInt64>, n_bins: int, t: int) -> bool {
    forall|b: int| 0 <= b < n_bins ==> hist[t * n_bins + b] == #[trigger] zero_pair(b)
}

proof fn lemma_target_apart(n_targets: int, n_bins: int, s: int, t: int)
    requires
        0 <= s < n_targets,
        0 <= t < n_targets,
        s != t,
        0 <= n_bins,
    ensures
        s * n_bins + n_bins <= t * n_bins || t * n_bins + n_bins <= s * n_bins,
        0 <= s * n_bins,
        s * n_bins + n_bins <= n_targets * n_bins,
{
    assert(s * n_bins + n_bins <= t * n_bins || t * n_bins + n_bins <= s * n_bins) by (nonlinear_arith)
        requires
            s + 1 <= t || t + 1 <= s,
            0 <= n_bins,
    ;
    assert(0 <= s * n_bins && s * n_bins + n_bins <= n_targets * n_bins) by (nonlinear_arith)
        requires
            0 <= s,
            s + 1 <= n_targets,
            0 <= n_bins,
    ;
}

/// A node is worth splitting where its gain is above the smallest that counts, a millionth. So a
/// node that gains nothing is not, and where one node is, so is every node that gains more.
pub proof fn lemma_promising(e: ExpandEntry, more: ExpandEntry)
    ensures
        promising(e) <==> lt_spec(0x3586_37BD, e.split.loss_chg),
        promising(e) ==> lt_spec(0, e.split.loss_chg),
        promising(e) && lt_spec(e.split.loss_chg, more.split.loss_chg) ==> promising(more),
{
}

/// Every node that was searched waits where it is worth splitting and becomes a leaf where it is
/// not, and nothing else does either.
pub proof fn lemma_sorted_out(entries: Seq<ExpandEntry>, n: int)
    requires
        0 <= n <= entries.len(),
    ensures
        queued(entries, n).len() + settled(entries, n).len() == n,
        forall|k: int| 0 <= k < n && promising(#[trigger] entries[k]) ==> queued(entries, n).contains(entries[k]),
        forall|k: int| 0 <= k < n && !promising(#[trigger] entries[k]) ==> settled(entries, n).contains(entries[k]),
        forall|k: int| 0 <= k < queued(entries, n).len() ==> promising(#[trigger] queued(entries, n)[k]),
        forall|k: int| 0 <= k < settled(entries, n).len() ==> !promising(#[trigger] settled(entries, n)[k]),
    decreases n,
{
    if n > 0 {
        lemma_sorted_out(entries, n - 1);
        let q = queued(entries, n - 1);
        let s = settled(entries, n - 1);
        let queued_now = queued(entries, n);
        let settled_now = settled(entries, n);
        let last = entries[n - 1];
        assert forall|k: int| 0 <= k < n && promising(#[trigger] entries[k]) implies queued_now.contains(entries[k]) by {
            if k < n - 1 {
                let j = choose|j: int| 0 <= j < q.len() && q[j] == entries[k];
                assert(queued_now[j] == entries[k]);
            } else {
                assert(queued_now[q.len() as int] == last);
            }
        }
        assert forall|k: int| 0 <= k < n && !promising(#[trigger] entries[k]) implies settled_now.contains(entries[k]) by {
            if k < n - 1 {
                let j = choose|j: int| 0 <= j < s.len() && s[j] == entries[k];
                assert(settled_now[j] == entries[k]);
            } else {
                assert(settled_now[s.len() as int] == last);
            }
        }
    }
}

/// The two children of a node share it out: their segments are its segment, their sums add up to its
/// sum, and each has its own node, gain and target sums, one level down.
pub proof fn lemma_children_share(
    left: ExpandEntry,
    right: ExpandEntry,
    parent: ExpandEntry,
    ids: ChildIds,
    n_left: u32,
    hist: Seq<GradientPairInt64>,
    a: int,
    b: int,
)
    requires
        is_child(left, parent, ids, n_left, false, hist, a),
        is_child(right, parent, ids, n_left, true, hist, b),
        n_left <= parent.seg_len,
        parent.seg_begin + parent.seg_len <= u32::MAX,
    ensures
        left.nid == ids.left && right.nid == ids.right,
        left.depth == parent.depth + 1 && right.depth == parent.depth + 1,
        left.seg_begin == parent.seg_begin && left.seg_len == n_left,
        right.seg_begin == left.seg_begin + left.seg_len,
        left.seg_len + right.seg_len == parent.seg_len,
        left.sum.grad == parent.split.left_grad && left.sum.hess == parent.split.left_hess,
        wrap(plus(exact(left.sum), exact(right.sum))) == parent.sum,
        left.root_gain == ids.left_gain && right.root_gain == ids.right_gain,
        left.target_sums@ == parent.left_target_sums@ && right.target_sums@ == parent.right_target_sums@,
        left.split.loss_chg == 0 && right.split.loss_chg == 0,
        left.slot == a && right.slot == b,
{
    let l = exact(left.sum);
    let p = exact(parent.sum);
    lemma_wrap_plus(minus(p, l), l);
    lemma_wrap_exact(parent.sum);
    lemma_wrap_exact(left.sum);
    assert(plus(minus(p, l), l) == p);
    assert(right.sum == wrap(minus(p, l)));
    assert(plus(l, exact(right.sum)) == plus(exact(right.sum), l));
    crate::gpu::pairs::lemma_pair_parts(minus(p, l), l, left.sum);
}

/// The nodes of a batch whose children are searched are those whose children may be split, each
/// once and in the order of the batch.
pub proof fn lemma_planned(grower: &GpuHistGrower, batch: Seq<ExpandEntry>, leaves: int, n: int)
    requires
        0 <= n <= batch.len(),
        batch.len() <= usize::MAX,
    ensures
        forall|k: usize|
            #[trigger] grower.planned(batch, leaves, n).contains(k) <==> k < n && grower.children_expand(
                &batch[k as int],
                leaves,
            ),
        forall|i: int, j: int|
            0 <= i < j < grower.planned(batch, leaves, n).len() ==> #[trigger] grower.planned(batch, leaves, n)[i]
                < #[trigger] grower.planned(batch, leaves, n)[j],
        forall|i: int| 0 <= i < grower.planned(batch, leaves, n).len() ==> #[trigger] grower.planned(batch, leaves, n)[i] < n,
    decreases n,
{
    if n > 0 {
        lemma_planned(grower, batch, leaves, n - 1);
        let rest = grower.planned(batch, leaves, n - 1);
        let all = grower.planned(batch, leaves, n);
        assert forall|i: int| 0 <= i < all.len() implies #[trigger] all[i] < n by {
            if i < rest.len() {
                assert(all[i] == rest[i]);
            }
        }
        assert forall|i: int, j: int| 0 <= i < j < all.len() implies #[trigger] all[i] < #[trigger] all[j] by {
            assert(all[i] == rest[i]);
            if j < rest.len() {
                assert(all[j] == rest[j]);
            }
        }
        assert forall|k: usize| #[trigger] all.contains(k) <==> k < n && grower.children_expand(
            &batch[k as int],
            leaves,
        ) by {
            if all.contains(k) {
                let i = choose|i: int| 0 <= i < all.len() && all[i] == k;
                if i < rest.len() {
                    assert(rest[i] == k);
                    assert(rest.contains(k));
                }
            }
            if rest.contains(k) {
                let i = choose|i: int| 0 <= i < rest.len() && rest[i] == k;
                assert(all[i] == k);
            }
            if k == n - 1 && grower.children_expand(&batch[n - 1], leaves) {
                assert(all[rest.len() as int] == k);
            }
        }
    }
}

/// Both children of a node that may not be split further become leaves at once, the left one with
/// the rows that went left and the right one with the others; no other node's children do.
pub proof fn lemma_new_leaves(
    grower: &GpuHistGrower,
    batch: Seq<ExpandEntry>,
    ids: Seq<ChildIds>,
    counts: Seq<u32>,
    leaves: int,
    n: int,
    k: int,
)
    requires
        0 <= k < n <= batch.len(),
        !grower.children_expand(&batch[k], leaves),
        counts[k] <= batch[k].seg_len,
        batch[k].seg_begin + batch[k].seg_len <= u32::MAX,
    ensures
        grower.new_leaves(batch, ids, counts, leaves, n).contains((ids[k].left, batch[k].seg_begin, counts[k])),
        grower.new_leaves(batch, ids, counts, leaves, n).contains(
            (
                ids[k].right,
                (batch[k].seg_begin + counts[k]) as u32,
                (batch[k].seg_len - counts[k]) as u32,
            ),
        ),
        grower.new_leaves(batch, ids, counts, leaves, n).len() + 2 * grower.planned(batch, leaves, n).len() == 2 * n,
    decreases n,
{
    lemma_leaves_counted(grower, batch, ids, counts, leaves, n);
    let rest = grower.new_leaves(batch, ids, counts, leaves, n - 1);
    let all = grower.new_leaves(batch, ids, counts, leaves, n);
    let left = (ids[k].left, batch[k].seg_begin, counts[k]);
    let right = (ids[k].right, (batch[k].seg_begin + counts[k]) as u32, (batch[k].seg_len - counts[k]) as u32);
    if k < n - 1 {
        lemma_new_leaves(grower, batch, ids, counts, leaves, n - 1, k);
        let i = choose|i: int| 0 <= i < rest.len() && rest[i] == left;
        let j = choose|j: int| 0 <= j < rest.len() && rest[j] == right;
        assert(all[i] == left && all[j] == right);
    } else {
        assert(all[rest.len() as int] == left);
        assert(all[rest.len() as int + 1] == right);
    }
}

proof fn lemma_leaves_counted(
    grower: &GpuHistGrower,
    batch: Seq<ExpandEntry>,
    ids: Seq<ChildIds>,
    counts: Seq<u32>,
    leaves: int,
    n: int,
)
    requires
        0 <= n,
    ensures
        grower.new_leaves(batch, ids, counts, leaves, n).len() + 2 * grower.planned(batch, leaves, n).len() == 2 * n,
    decreases n,
{
    if n > 0 {
        lemma_leaves_counted(grower, batch, ids, counts, leaves, n - 1);
    }
}

/// The root is the first node, at no depth, with every row and the sum of all of them; where there
/// is one target that is the sum of its column.
pub proof fn lemma_root(grower: &GpuHistGrower, columns: Seq<Vec<GradientPairInt64>>, root_gain: u32, root: ExpandEntry)
    requires
        grower.is_root(columns, root_gain, root),
        columns.len() == grower.n_targets,
    ensures
        root.nid == 0 && root.depth == 0,
        root.seg_begin == 0 && root.seg_len == grower.n_rows,
        root.root_gain == root_gain,
        columns.len() == 1 ==> root.sum == wrap(total(columns[0].len() as int, |i: int| exact(columns[0][i]))),
        columns.len() > 1 ==> root.target_sums.len() == columns.len() && forall|t: int|
            0 <= t < columns.len() ==> #[trigger] root.target_sums[t] == wrap(
                total(columns[t].len() as int, |i: int| exact(columns[t][i])),
            ),
{
    let sums = Seq::new(columns.len(), |t: int| wrap(column_sum(columns[t]@)));
    if columns.len() == 1 {
        let only = sums[0];
        let f = |i: int| exact(sums[i]);
        assert(total(1, f) == plus(total(0, f), f(0)));
        assert(column_sum(sums) == exact(only));
        lemma_wrap_exact(only);
        crate::gpu::pairs::lemma_total_same(
            columns[0].len() as int,
            |i: int| exact(columns[0]@[i]),
            |i: int| exact(columns[0][i]),
        );
    }
    assert forall|t: int| 0 <= t < columns.len() implies #[trigger] sums[t] == wrap(
        total(columns[t].len() as int, |i: int| exact(columns[t][i])),
    ) by {
        crate::gpu::pairs::lemma_total_same(
            columns[t].len() as int,
            |i: int| exact(columns[t]@[i]),
            |i: int| exact(columns[t][i]),
        );
    }
}

} // verus!
