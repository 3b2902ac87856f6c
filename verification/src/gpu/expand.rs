//! The nodes waiting to be split, and the order they are split in.

use vstd::prelude::*;

use std::rc::Rc;

use crate::float_bits::{is_nan_spec, le, le_spec, lt, lt_spec, total_before, total_rank, wide_rank, wide_zero};
use crate::gpu::evaluate_splits::DeviceSplitCandidate;
use crate::gpu::pairs::{exact, minus, wrap};
use crate::gpu::GradientPairInt64;
use crate::tree::param::{GrowPolicy, TrainParam, RT_EPS};

verus! {

/// The sums of a node's gradients and hessians, as double-precision bit patterns.
#[derive(Clone, Copy, Debug, PartialEq, Eq, Structural)]
pub struct GradStats {
    pub sum_grad: u64,
    pub sum_hess: u64,
}

impl Default for GradStats {
    fn default() -> (stats: Self)
        ensures
            stats == (GradStats { sum_grad: 0, sum_hess: 0 }),
    {
        GradStats { sum_grad: 0, sum_hess: 0 }
    }
}

/// A node waiting to be split.
#[derive(Clone, Debug)]
pub struct ExpandEntry {
    pub nid: usize,
    pub depth: i32,
    /// This node's rows, as a range of the partitioner's row index.
    pub seg_begin: u32,
    pub seg_len: u32,
    /// Buffer holding this node's histogram, shared by the nodes of its batch, and the bin
    /// at which the node's begins.
    pub hist: Rc<Vec<GradientPairInt64>>,
    pub slot: u32,
    /// Quantised node sum, and the gain of leaving this node a leaf.
    pub sum: GradientPairInt64,
    pub root_gain: u32,
    /// Best split found for this node, and its children's decoded sums.
    pub split: DeviceSplitCandidate,
    pub left_stats: GradStats,
    pub right_stats: GradStats,
    /// Categories the split sends right, as a bit set over feature-local bins. Empty
    /// unless the split names categories.
    pub cat_bits: Vec<u32>,
    /// This node's sum and its children's sums, one entry per target. Empty outside a
    /// vector-leaf tree.
    pub target_sums: Vec<GradientPairInt64>,
    pub left_target_sums: Vec<GradientPairInt64>,
    pub right_target_sums: Vec<GradientPairInt64>,
}

impl ExpandEntry {
    /// The node is worth splitting: its split gains enough, leaves neither child without
    /// weight, and stays within the limits of the tree.
    pub open spec fn valid(&self, p: &TrainParam, num_leaves: int) -> bool {
        &&& !le_spec(self.split.loss_chg, RT_EPS)
        &&& wide_rank(self.left_stats.sum_hess) != 0
        &&& wide_rank(self.right_stats.sum_hess) != 0
        &&& !lt_spec(self.split.loss_chg, p.min_split_loss)
        &&& !(p.max_depth > 0 && self.depth == p.max_depth)
        &&& !(p.max_leaves > 0 && num_leaves == p.max_leaves)
    }

    pub fn is_valid(&self, p: &TrainParam, num_leaves: i32) -> (valid: bool)
        ensures
            valid == self.valid(p, num_leaves as int),
    {
        if le(self.split.loss_chg, RT_EPS) {
            return false;
        }
        if wide_zero(self.left_stats.sum_hess) || wide_zero(self.right_stats.sum_hess) {
            return false;
        }
        if lt(self.split.loss_chg, p.min_split_loss) {
            return false;
        }
        if p.max_depth > 0 && self.depth == p.max_depth {
            return false;
        }
        if p.max_leaves > 0 && num_leaves == p.max_leaves {
            return false;
        }
        true
    }

    /// The node with the split that was found for it, which lies in its rows and histogram
    /// as before.
    pub fn scored(
        self,
        split: DeviceSplitCandidate,
        left_stats: GradStats,
        right_stats: GradStats,
        cat_bits: Vec<u32>,
        left_target_sums: Vec<GradientPairInt64>,
        right_target_sums: Vec<GradientPairInt64>,
    ) -> (e: Self)
        ensures
            e == (ExpandEntry {
                split,
                left_stats,
                right_stats,
                cat_bits,
                left_target_sums,
                right_target_sums,
                ..self
            }),
    {
        ExpandEntry { split, left_stats, right_stats, cat_bits, left_target_sums, right_target_sums, ..self }
    }

    /// The sums of the two children of the node's split.
    pub fn child_sums(&self) -> (sums: (GradientPairInt64, GradientPairInt64))
        ensures
            sums.0 == (GradientPairInt64 { grad: self.split.left_grad, hess: self.split.left_hess }),
            sums.1 == wrap(minus(exact(self.sum), exact(sums.0))),
    {
        let left = GradientPairInt64 { grad: self.split.left_grad, hess: self.split.left_hess };
        (left, self.sum.wrapping_sub(left))
    }

    /// The entry is split before `other`: the larger gain first, the smaller node id on a
    /// tie.
    pub open spec fn outranks(&self, other: &Self) -> bool {
        ||| total_rank(self.split.loss_chg) > total_rank(other.split.loss_chg)
        ||| total_rank(self.split.loss_chg) == total_rank(other.split.loss_chg) && self.nid < other.nid
    }

    fn goes_first(&self, other: &Self) -> (yes: bool)
        ensures
            yes == self.outranks(other),
    {
        if total_before(other.split.loss_chg, self.split.loss_chg) {
            return true;
        }
        if total_before(self.split.loss_chg, other.split.loss_chg) {
            return false;
        }
        self.nid < other.nid
    }
}

/// Of two entries one is split first, unless both gain and node id are the same.
pub proof fn lemma_outranks_total(a: &ExpandEntry, b: &ExpandEntry)
    requires
        a.nid != b.nid,
    ensures
        a.outranks(b) != b.outranks(a),
{
}

/// The nodes waiting to be split.
#[derive(Clone, Debug)]
pub enum ExpandQueue {
    /// In the order they came.
    DepthWise(Vec<ExpandEntry>),
    /// In no order: the best is looked for.
    LossGuide(Vec<ExpandEntry>),
}

/// Entry `a` gains no more than entry `b`, on the gains themselves; and of two that gain the same
/// `b` is the earlier node.
pub open spec fn gains_no_more(a: ExpandEntry, b: ExpandEntry) -> bool {
    &&& !is_nan_spec(a.split.loss_chg) && !is_nan_spec(b.split.loss_chg) ==> le_spec(
        a.split.loss_chg,
        b.split.loss_chg,
    )
    &&& a.split.loss_chg == b.split.loss_chg ==> b.nid <= a.nid
}

/// A node that is split gains more than nothing and no less than is asked for, has something on
/// either side, and does not lie at the greatest depth.
pub open spec fn within_limits(e: ExpandEntry, p: &TrainParam) -> bool {
    &&& !is_nan_spec(e.split.loss_chg) ==> lt_spec(RT_EPS, e.split.loss_chg)
    &&& !is_nan_spec(e.split.loss_chg) && !is_nan_spec(p.min_split_loss) ==> le_spec(
        p.min_split_loss,
        e.split.loss_chg,
    )
    &&& wide_rank(e.left_stats.sum_hess) != 0
    &&& wide_rank(e.right_stats.sum_hess) != 0
    &&& p.max_depth > 0 ==> e.depth != p.max_depth
}

/// Best first, the node that is taken gains at least as much as every other: a larger gain
/// always goes first, and the earlier node where gains are the same.
pub proof fn lemma_best_gains_most(entries: Seq<ExpandEntry>, k: int, j: int)
    requires
        is_best(entries, k),
        0 <= j < entries.len(),
    ensures
        !is_nan_spec(entries[j].split.loss_chg) && !is_nan_spec(entries[k].split.loss_chg) ==> le_spec(
            entries[j].split.loss_chg,
            entries[k].split.loss_chg,
        ),
        entries[j].split.loss_chg == entries[k].split.loss_chg ==> entries[k].nid <= entries[j].nid,
        gains_no_more(entries[j], entries[k]),
{
    assert(!entries[j].outranks(&entries[k]));
}

/// A node whose split gains more goes before one whose split gains less, and never after.
pub proof fn lemma_larger_gain_first(a: &ExpandEntry, b: &ExpandEntry)
    requires
        lt_spec(b.split.loss_chg, a.split.loss_chg),
    ensures
        a.outranks(b),
        !b.outranks(a),
{
}

/// A node that is worth splitting is within the limits; and one that gains enough on both
/// counts, has both children, and lies above the greatest depth is worth splitting as long as
/// there is room for a leaf.
pub proof fn lemma_valid_limits(e: ExpandEntry, p: &TrainParam, num_leaves: int)
    ensures
        e.valid(p, num_leaves) ==> within_limits(e, p),
        e.valid(p, num_leaves) && p.max_leaves > 0 ==> num_leaves != p.max_leaves,
        lt_spec(RT_EPS, e.split.loss_chg) && le_spec(p.min_split_loss, e.split.loss_chg) && wide_rank(
            e.left_stats.sum_hess,
        ) != 0 && wide_rank(e.right_stats.sum_hess) != 0 && (p.max_depth <= 0 || e.depth < p.max_depth) && (p.max_leaves
            <= 0 || num_leaves < p.max_leaves) ==> e.valid(p, num_leaves),
        le_spec(e.split.loss_chg, RT_EPS) ==> !e.valid(p, num_leaves),
        lt_spec(e.split.loss_chg, p.min_split_loss) ==> !e.valid(p, num_leaves),
{
}

/// Of a level, the nodes that are split are within the limits, and the tree gets no more leaves
/// than it may have.
pub proof fn lemma_admitted_limits(entries: Seq<ExpandEntry>, n: int, p: &TrainParam, leaves: int)
    requires
        0 <= n <= entries.len(),
    ensures
        forall|i: int|
            0 <= i < admitted(entries, n, p, leaves).len() ==> within_limits(
                #[trigger] admitted(entries, n, p, leaves)[i],
                p,
            ),
        p.max_leaves > 0 && leaves <= p.max_leaves ==> leaves + admitted(entries, n, p, leaves).len() <= p.max_leaves,
        admitted(entries, n, p, leaves).len() + refused(entries, n, p, leaves).len() == n,
    decreases n,
{
    if n > 0 {
        lemma_admitted_limits(entries, n - 1, p, leaves);
        let rest = admitted(entries, n - 1, p, leaves);
        let all = admitted(entries, n, p, leaves);
        lemma_valid_limits(entries[n - 1], p, leaves + rest.len());
        assert forall|i: int| 0 <= i < all.len() implies within_limits(#[trigger] all[i], p) by {
            if i < rest.len() {
                assert(all[i] == rest[i]);
            }
        }
    }
}

/// No entry is split before entry `k`.
pub open spec fn is_best(entries: Seq<ExpandEntry>, k: int) -> bool {
    &&& 0 <= k < entries.len()
    &&& forall|j: int| 0 <= j < entries.len() ==> !(#[trigger] entries[j]).outranks(&entries[k])
}

/// How many entries from the front are as deep as `depth`.
pub open spec fn level_len(entries: Seq<ExpandEntry>, depth: i32) -> int
    decreases entries.len(),
{
    if entries.len() == 0 || entries[0].depth != depth {
        0
    } else {
        1 + level_len(entries.drop_first(), depth)
    }
}

/// Of the first `n` entries, those that are split when the tree has `leaves` leaves before;
/// each adds a leaf.
pub open spec fn admitted(entries: Seq<ExpandEntry>, n: int, p: &TrainParam, leaves: int) -> Seq<ExpandEntry>
    decreases n,
{
    if n <= 0 {
        Seq::empty()
    } else {
        let rest = admitted(entries, n - 1, p, leaves);
        if entries[n - 1].valid(p, leaves + rest.len()) {
            rest.push(entries[n - 1])
        } else {
            rest
        }
    }
}

/// Of the first `n` entries, those that stay leaves.
pub open spec fn refused(entries: Seq<ExpandEntry>, n: int, p: &TrainParam, leaves: int) -> Seq<ExpandEntry>
    decreases n,
{
    if n <= 0 {
        Seq::empty()
    } else {
        let rest = refused(entries, n - 1, p, leaves);
        if entries[n - 1].valid(p, leaves + admitted(entries, n - 1, p, leaves).len()) {
            rest
        } else {
            rest.push(entries[n - 1])
        }
    }
}

proof fn lemma_level_len(entries: Seq<ExpandEntry>, depth: i32)
    ensures
        0 <= level_len(entries, depth) <= entries.len(),
        forall|k: int| 0 <= k < level_len(entries, depth) ==> (#[trigger] entries[k]).depth == depth,
        level_len(entries, depth) < entries.len() ==> entries[level_len(entries, depth)].depth != depth,
    decreases entries.len(),
{
    if entries.len() > 0 && entries[0].depth == depth {
        let rest = entries.drop_first();
        lemma_level_len(rest, depth);
        assert forall|k: int| 0 <= k < level_len(entries, depth) implies (#[trigger] entries[k]).depth == depth by {
            if k > 0 {
                assert(rest[k - 1] == entries[k]);
            }
        }
    }
}

/// A level whose entries are all as deep as the first is the whole queue.
pub proof fn lemma_level_whole(entries: Seq<ExpandEntry>, depth: i32)
    requires
        forall|k: int| 0 <= k < entries.len() ==> (#[trigger] entries[k]).depth == depth,
    ensures
        level_len(entries, depth) == entries.len(),
    decreases entries.len(),
{
    lemma_level_len(entries, depth);
}

/// Entry `k` leaves the queue, to be split or to stay a leaf.
pub open spec fn pops(
    was: Seq<ExpandEntry>,
    k: int,
    now: Seq<ExpandEntry>,
    batch: Seq<ExpandEntry>,
    leaves: Seq<ExpandEntry>,
    p: &TrainParam,
    num_leaves: int,
) -> bool {
    &&& now == was.remove(k)
    &&& if was[k].valid(p, num_leaves) {
        batch == seq![was[k]] && leaves == Seq::<ExpandEntry>::empty()
    } else {
        batch == Seq::<ExpandEntry>::empty() && leaves == seq![was[k]]
    }
}

impl ExpandQueue {
    /// The entries in the queue.
    pub open spec fn entries(&self) -> Seq<ExpandEntry> {
        match self {
            ExpandQueue::DepthWise(q) => q@,
            ExpandQueue::LossGuide(q) => q@,
        }
    }

    /// Whole levels are split together.
    pub open spec fn by_level(&self) -> bool {
        self is DepthWise
    }

    pub fn new(policy: GrowPolicy) -> (queue: Self)
        ensures
            queue.entries() == Seq::<ExpandEntry>::empty(),
            queue.by_level() == (policy == GrowPolicy::DepthWise),
    {
        match policy {
            GrowPolicy::DepthWise => ExpandQueue::DepthWise(Vec::new()),
            GrowPolicy::LossGuide => ExpandQueue::LossGuide(Vec::new()),
        }
    }

    pub fn push(&mut self, entry: ExpandEntry)
        ensures
            final(self).entries() == old(self).entries().push(entry),
            final(self).by_level() == old(self).by_level(),
    {
        match self {
            ExpandQueue::DepthWise(q) => q.push(entry),
            ExpandQueue::LossGuide(q) => q.push(entry),
        }
    }

    /// The next batch: one entry best first, a whole level otherwise; and the entries that
    /// were due but are not worth splitting, which stay leaves.
    pub fn pop_batch(&mut self, param: &TrainParam, num_leaves: &mut i32) -> (popped: (Vec<ExpandEntry>, Vec<ExpandEntry>))
        requires
            *old(num_leaves) + old(self).entries().len() <= i32::MAX,
        ensures
            final(self).by_level() == old(self).by_level(),
            *final(num_leaves) == *old(num_leaves) + popped.0.len(),
            old(self).entries().len() == 0 ==> popped.0.len() == 0 && popped.1.len() == 0 && final(self).entries()
                == old(self).entries(),
            old(self).by_level() && old(self).entries().len() > 0 ==> ({
                let was = old(self).entries();
                let m = level_len(was, was[0].depth);
                &&& popped.0@ == admitted(was, m, param, *old(num_leaves) as int)
                &&& popped.1@ == refused(was, m, param, *old(num_leaves) as int)
                &&& final(self).entries() == was.subrange(m, was.len() as int)
            }),
            !old(self).by_level() && old(self).entries().len() > 0 ==> exists|k: int|
                #[trigger] is_best(old(self).entries(), k) && pops(
                    old(self).entries(),
                    k,
                    final(self).entries(),
                    popped.0@,
                    popped.1@,
                    param,
                    *old(num_leaves) as int,
                ) && forall|j: int|
                    0 <= j < old(self).entries().len() ==> gains_no_more(
                        #[trigger] old(self).entries()[j],
                        old(self).entries()[k],
                    ),
            forall|i: int| 0 <= i < popped.0.len() ==> within_limits(#[trigger] popped.0[i], param),
            param.max_leaves > 0 && *old(num_leaves) <= param.max_leaves ==> *final(num_leaves) <= param.max_leaves,
    {
        let mut out: Vec<ExpandEntry> = Vec::new();
        let mut leaves: Vec<ExpandEntry> = Vec::new();
        let ghost was = self.entries();
        let ghost before = *num_leaves;
        match self {
            ExpandQueue::LossGuide(q) => {
                if q.len() == 0 {
                    assert(q@ =~= was);
                    return (out, leaves);
                }
                let mut best: usize = 0;
                let mut k: usize = 1;
                while k < q.len()
                    invariant
                        q@ == was,
                        1 <= k <= q.len(),
                        best < k,
                        forall|j: int| 0 <= j < k ==> !(#[trigger] q[j]).outranks(&q[best as int]),
                    decreases q.len() - k,
                {
                    if q[k].goes_first(&q[best]) {
                        best = k;
                    }
                    k += 1;
                }
                assert(is_best(was, best as int));
                proof {
                    assert forall|j: int| 0 <= j < was.len() implies gains_no_more(#[trigger] was[j], was[best as int]) by {
                        lemma_best_gains_most(was, best as int, j);
                    }
                    lemma_valid_limits(was[best as int], param, before as int);
                }
                let entry: ExpandEntry = q.remove(best);
                if entry.is_valid(param, *num_leaves) {
                    *num_leaves = *num_leaves + 1;
                    out.push(entry);
                    assert(out@ =~= seq![was[best as int]]);
                } else {
                    leaves.push(entry);
                    assert(leaves@ =~= seq![was[best as int]]);
                }
                assert(q@ =~= was.remove(best as int));
            },
            ExpandQueue::DepthWise(q) => {
                if q.len() == 0 {
                    assert(q@ =~= was);
                    return (out, leaves);
                }
                let level: i32 = q[0].depth;
                let ghost m = level_len(was, level);
                proof {
                    lemma_level_len(was, level);
                }
                let mut n: usize = 0;
                assert(q@ =~= was.subrange(0, was.len() as int));
                while q.len() > 0 && q[0].depth == level
                    invariant
                        was.len() == n + q.len(),
                        q@ == was.subrange(n as int, was.len() as int),
                        m == level_len(was, level),
                        0 <= m <= was.len(),
                        forall|k: int| 0 <= k < m ==> (#[trigger] was[k]).depth == level,
                        m < was.len() ==> was[m].depth != level,
                        n <= m,
                        before + was.len() <= i32::MAX,
                        *num_leaves == before + out.len(),
                        out.len() <= n,
                        out@ == admitted(was, n as int, param, before as int),
                        leaves@ == refused(was, n as int, param, before as int),
                    decreases q.len(),
                {
                    assert(q[0] == was[n as int]);
                    let entry: ExpandEntry = q.remove(0);
                    assert(q@ =~= was.subrange(n + 1, was.len() as int));
                    if entry.is_valid(param, *num_leaves) {
                        *num_leaves = *num_leaves + 1;
                        out.push(entry);
                    } else {
                        leaves.push(entry);
                    }
                    n += 1;
                }
                proof {
                    if n < m {
                        assert(q[0] == was[n as int]);
                    }
                    lemma_admitted_limits(was, m, param, before as int);
                }
            },
        }
        (out, leaves)
    }
}

/// Without a limit on the leaves every waiting node that is worth splitting is split, and every
/// other becomes a leaf.
pub proof fn lemma_admitted_exactly(entries: Seq<ExpandEntry>, n: int, p: &TrainParam, leaves: int, k: int)
    requires
        0 <= k < n <= entries.len(),
        p.max_leaves <= 0,
    ensures
        entries[k].valid(p, leaves) ==> admitted(entries, n, p, leaves).contains(entries[k]),
        !entries[k].valid(p, leaves) ==> refused(entries, n, p, leaves).contains(entries[k]),
    decreases n,
{
    let split = admitted(entries, n - 1, p, leaves);
    let stay = refused(entries, n - 1, p, leaves);
    let all = admitted(entries, n, p, leaves);
    let rest = refused(entries, n, p, leaves);
    if k < n - 1 {
        lemma_admitted_exactly(entries, n - 1, p, leaves, k);
        if entries[k].valid(p, leaves) {
            let i = choose|i: int| 0 <= i < split.len() && split[i] == entries[k];
            assert(all[i] == entries[k]);
        } else {
            let i = choose|i: int| 0 <= i < stay.len() && stay[i] == entries[k];
            assert(rest[i] == entries[k]);
        }
    } else if entries[k].valid(p, leaves) {
        assert(all[split.len() as int] == entries[k]);
    } else {
        assert(rest[stay.len() as int] == entries[k]);
    }
}

/// Nodes are let in in the order in which they wait: one more waiting behind them changes nothing
/// for those before it.
pub proof fn lemma_admitted_in_order(entries: Seq<ExpandEntry>, n: int, p: &TrainParam, leaves: int)
    requires
        0 < n <= entries.len(),
    ensures
        ({
            let before = admitted(entries, n - 1, p, leaves);
            let now = admitted(entries, n, p, leaves);
            &&& before.len() <= now.len() <= before.len() + 1
            &&& forall|i: int| 0 <= i < before.len() ==> #[trigger] now[i] == before[i]
            &&& now.len() > before.len() ==> now.last() == entries[n - 1] && entries[n - 1].valid(
                p,
                leaves + before.len(),
            )
        }),
{
}

/// A level is made of the nodes at the front that stand at its depth, up to the first that does not.
pub proof fn lemma_level(entries: Seq<ExpandEntry>, depth: i32)
    ensures
        0 <= level_len(entries, depth) <= entries.len(),
        forall|i: int| 0 <= i < level_len(entries, depth) ==> (#[trigger] entries[i]).depth == depth,
        level_len(entries, depth) < entries.len() ==> entries[level_len(entries, depth)].depth != depth,
    decreases entries.len(),
{
    if entries.len() > 0 && entries[0].depth == depth {
        let rest = entries.drop_first();
        lemma_level(rest, depth);
        assert forall|i: int| 0 <= i < level_len(entries, depth) implies (#[trigger] entries[i]).depth == depth by {
            if i > 0 {
                assert(rest[i - 1] == entries[i]);
            }
        }
        if level_len(rest, depth) < rest.len() {
            assert(rest[level_len(rest, depth)] == entries[level_len(rest, depth) + 1]);
        }
    }
}

/// The entry that leaves the queue is split where it is worth splitting and becomes a leaf where it
/// is not, and the others stay as they were.
pub proof fn lemma_popped(
    was: Seq<ExpandEntry>,
    k: int,
    now: Seq<ExpandEntry>,
    batch: Seq<ExpandEntry>,
    leaves: Seq<ExpandEntry>,
    p: &TrainParam,
    num_leaves: int,
)
    requires
        pops(was, k, now, batch, leaves, p, num_leaves),
        0 <= k < was.len(),
    ensures
        batch.len() + leaves.len() == 1,
        batch.len() == 1 <==> was[k].valid(p, num_leaves),
        batch.len() == 1 ==> batch[0] == was[k],
        leaves.len() == 1 ==> leaves[0] == was[k],
        now.len() == was.len() - 1,
        forall|i: int| 0 <= i < k ==> #[trigger] now[i] == was[i],
        forall|i: int| k <= i < now.len() ==> #[trigger] now[i] == was[i + 1],
{
}

} // verus!
