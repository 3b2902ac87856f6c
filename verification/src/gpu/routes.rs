//! Which leaf a row of a grown tree reaches.
//!
//! Growth parts the row index and never walks the tree it grows. Here the splits are followed
//! from the root instead: the leaf whose segment holds a row is the one that the row reaches.

use vstd::prelude::*;

use crate::gpu::agreement::lemma_split_applied;
use crate::gpu::ellpack::DeviceEllpack;
use crate::gpu::expand::{admitted, pops, refused, ExpandEntry};
use crate::gpu::frontier::{child_seg, parent_rows, right_built, unit_at};
use crate::gpu::grower::GpuHistGrower;
use crate::gpu::growth::{
    as_leaf, as_leaves, by_nid, is_child, lemma_by_nid, lemma_place, place, queued, settled, ChildIds, GrownTree,
    LeafSegment, TreeGrowth,
};
use crate::gpu::row_partitioner::{unowned, SegmentSplit};
use crate::gpu::segments::{lemma_owners_at_least, lies_in, owners};
use crate::gpu::GradientPairInt64;
use crate::seqs::lemma_filter_counts;

verus! {

/// A node that was split: the split, and the nodes it leads to.
pub ghost struct Branch {
    pub split: SegmentSplit,
    pub left: usize,
    pub right: usize,
}

/// Where a row goes from a node: to one of its children, or nowhere from a leaf.
pub open spec fn next_node(ell: &DeviceEllpack, routes: Map<usize, Branch>, row: u32, at: usize) -> usize {
    if !routes.contains_key(at) {
        at
    } else if routes[at].split.sends_left(ell, row) {
        routes[at].left
    } else {
        routes[at].right
    }
}

/// Where a row is after `k` steps from the root.
pub open spec fn node_after(ell: &DeviceEllpack, routes: Map<usize, Branch>, row: u32, k: nat) -> usize
    decreases k,
{
    if k == 0 {
        0
    } else {
        next_node(ell, routes, row, node_after(ell, routes, row, (k - 1) as nat))
    }
}

/// Node `nid` is a leaf, and the row comes to it.
pub open spec fn reaches(ell: &DeviceEllpack, routes: Map<usize, Branch>, row: u32, nid: usize) -> bool {
    &&& !routes.contains_key(nid)
    &&& exists|k: nat| #[trigger] node_after(ell, routes, row, k) == nid
}

/// The rows of a leaf's segment reach the leaf.
pub open spec fn leaf_routed(ell: &DeviceEllpack, routes: Map<usize, Branch>, rows: Seq<u32>, leaf: LeafSegment) -> bool {
    &&& !routes.contains_key(leaf.0)
    &&& forall|i: int| leaf.1 <= i < leaf.1 + leaf.2 ==> reaches(ell, routes, #[trigger] rows[i], leaf.0)
}

/// The rows of every segment reach the segment's leaf, and no two segments have the same one.
pub open spec fn routed(ell: &DeviceEllpack, routes: Map<usize, Branch>, rows: Seq<u32>, leaves: Seq<LeafSegment>) -> bool {
    &&& forall|x: int| 0 <= x < leaves.len() ==> leaf_routed(ell, routes, rows, #[trigger] leaves[x])
    &&& forall|x: int, y: int| 0 <= x < y < leaves.len() ==> (#[trigger] leaves[x]).0 != (#[trigger] leaves[y]).0
}

/// The tree as it stands: what is a leaf, what is queued, and what is in the caller's hands.
pub open spec fn standing(growth: &TreeGrowth, held: Seq<ExpandEntry>) -> Seq<LeafSegment> {
    growth.leaf_segments@ + as_leaves(growth.queue.entries()) + as_leaves(held)
}

/// `after` is `routes` with the nodes of a batch split as their splits say.
pub open spec fn branches(
    grower: &GpuHistGrower,
    routes: Map<usize, Branch>,
    batch: Seq<ExpandEntry>,
    ids: Seq<ChildIds>,
    after: Map<usize, Branch>,
) -> bool {
    &&& forall|nid: usize| #[trigger]
        after.contains_key(nid) <==> routes.contains_key(nid) || exists|k: int|
            0 <= k < batch.len() && (#[trigger] batch[k]).nid == nid
    &&& forall|nid: usize| #[trigger] routes.contains_key(nid) ==> after[nid] == routes[nid]
    &&& forall|k: int|
        0 <= k < batch.len() ==> {
            let b = after[(#[trigger] batch[k]).nid];
            grower.splits_as(&batch[k], &b.split) && b.left == ids[k].left && b.right == ids[k].right
        }
}

/// The id of a child.
pub open spec fn id_of(ids: ChildIds, right: bool) -> usize {
    if right {
        ids.right
    } else {
        ids.left
    }
}

/// The children's ids are new, and all different.
pub open spec fn new_ids(routes: Map<usize, Branch>, leaves: Seq<LeafSegment>, ids: Seq<ChildIds>) -> bool {
    &&& forall|k: int, right: bool|
        0 <= k < ids.len() ==> !routes.contains_key(#[trigger] id_of(ids[k], right))
    &&& forall|k: int, right: bool, x: int|
        0 <= k < ids.len() && 0 <= x < leaves.len() ==> #[trigger] id_of(ids[k], right) != (#[trigger] leaves[x]).0
    &&& forall|j: int, a: bool, k: int, b: bool|
        0 <= j < ids.len() && 0 <= k < ids.len() && #[trigger] id_of(ids[j], a) == #[trigger] id_of(ids[k], b) ==> j == k
            && a == b
}

// ------------------------------------------------------------- following ----

/// A row that came to a leaf stays there.
proof fn lemma_stays(ell: &DeviceEllpack, routes: Map<usize, Branch>, row: u32, j: nat, k: nat)
    requires
        j <= k,
        !routes.contains_key(node_after(ell, routes, row, j)),
    ensures
        node_after(ell, routes, row, k) == node_after(ell, routes, row, j),
    decreases k - j,
{
    if j < k {
        lemma_stays(ell, routes, row, j, (k - 1) as nat);
    }
}

/// The first time that a row is at a leaf, it came through nodes that were split.
proof fn lemma_first_visit(ell: &DeviceEllpack, routes: Map<usize, Branch>, row: u32, nid: usize, k: nat) -> (first: nat)
    requires
        node_after(ell, routes, row, k) == nid,
    ensures
        node_after(ell, routes, row, first) == nid,
        forall|j: nat| j < first ==> routes.contains_key(#[trigger] node_after(ell, routes, row, j)),
    decreases k,
{
    if k == 0 {
        k
    } else if !routes.contains_key(node_after(ell, routes, row, (k - 1) as nat)) {
        lemma_first_visit(ell, routes, row, nid, (k - 1) as nat)
    } else {
        assert forall|j: nat| j < k implies routes.contains_key(#[trigger] node_after(ell, routes, row, j)) by {
            if !routes.contains_key(node_after(ell, routes, row, j)) {
                lemma_stays(ell, routes, row, j, (k - 1) as nat);
            }
        }
        k
    }
}

/// Splitting leaves changes no way that goes through none of them.
proof fn lemma_same_way(
    ell: &DeviceEllpack,
    routes: Map<usize, Branch>,
    after: Map<usize, Branch>,
    row: u32,
    k: nat,
)
    requires
        forall|nid: usize| #[trigger] routes.contains_key(nid) ==> after.contains_key(nid) && after[nid] == routes[nid],
        forall|j: nat| j < k ==> routes.contains_key(#[trigger] node_after(ell, routes, row, j)),
    ensures
        node_after(ell, after, row, k) == node_after(ell, routes, row, k),
    decreases k,
{
    if k > 0 {
        lemma_same_way(ell, routes, after, row, (k - 1) as nat);
        assert(routes.contains_key(node_after(ell, routes, row, (k - 1) as nat)));
    }
}

/// A row that reaches a leaf reaches it when others are split.
proof fn lemma_still_reaches(
    grower: &GpuHistGrower,
    routes: Map<usize, Branch>,
    batch: Seq<ExpandEntry>,
    ids: Seq<ChildIds>,
    after: Map<usize, Branch>,
    row: u32,
    nid: usize,
)
    requires
        branches(grower, routes, batch, ids, after),
        reaches(&grower.engine.ell, routes, row, nid),
        forall|k: int| 0 <= k < batch.len() ==> (#[trigger] batch[k]).nid != nid,
    ensures
        reaches(&grower.engine.ell, after, row, nid),
{
    let ell = &grower.engine.ell;
    let k = choose|k: nat| #[trigger] node_after(ell, routes, row, k) == nid;
    let first = lemma_first_visit(ell, routes, row, nid, k);
    lemma_same_way(ell, routes, after, row, first);
    assert(node_after(ell, after, row, first) == nid);
    assert(!after.contains_key(nid));
}

/// A row of a node that is split reaches the child that the split sends it to.
proof fn lemma_reaches_child(
    grower: &GpuHistGrower,
    routes: Map<usize, Branch>,
    leaves: Seq<LeafSegment>,
    batch: Seq<ExpandEntry>,
    ids: Seq<ChildIds>,
    after: Map<usize, Branch>,
    row: u32,
    pos: int,
    right: bool,
)
    requires
        branches(grower, routes, batch, ids, after),
        ids.len() == batch.len(),
        0 <= pos < batch.len(),
        new_ids(routes, leaves, ids),
        forall|k: int| 0 <= k < batch.len() ==> leaves.contains(as_leaf(#[trigger] batch[k])),
        reaches(&grower.engine.ell, routes, row, batch[pos].nid),
        right == !after[batch[pos].nid].split.sends_left(&grower.engine.ell, row),
    ensures
        reaches(&grower.engine.ell, after, row, id_of(ids[pos], right)),
{
    let ell = &grower.engine.ell;
    let nid = batch[pos].nid;
    let k = choose|k: nat| #[trigger] node_after(ell, routes, row, k) == nid;
    let first = lemma_first_visit(ell, routes, row, nid, k);
    lemma_same_way(ell, routes, after, row, first);
    assert(after.contains_key(nid));
    let child = id_of(ids[pos], right);
    assert(node_after(ell, after, row, first + 1) == child);
    lemma_child_is_leaf(grower, routes, leaves, batch, ids, after, pos, right);
}

/// A child is no node that was split.
proof fn lemma_child_is_leaf(
    grower: &GpuHistGrower,
    routes: Map<usize, Branch>,
    leaves: Seq<LeafSegment>,
    batch: Seq<ExpandEntry>,
    ids: Seq<ChildIds>,
    after: Map<usize, Branch>,
    pos: int,
    right: bool,
)
    requires
        branches(grower, routes, batch, ids, after),
        ids.len() == batch.len(),
        0 <= pos < batch.len(),
        new_ids(routes, leaves, ids),
        forall|k: int| 0 <= k < batch.len() ==> leaves.contains(as_leaf(#[trigger] batch[k])),
    ensures
        !after.contains_key(id_of(ids[pos], right)),
{
    let child = id_of(ids[pos], right);
    if after.contains_key(child) {
        assert(!routes.contains_key(child));
        let j = choose|j: int| 0 <= j < batch.len() && (#[trigger] batch[j]).nid == child;
        assert(leaves.contains(as_leaf(batch[j])));
        let x = choose|x: int| 0 <= x < leaves.len() && leaves[x] == as_leaf(batch[j]);
        assert(id_of(ids[pos], right) != leaves[x].0);
    }
}

// ---------------------------------------------------------- rearranging ----

/// The same segments in another order.
pub proof fn lemma_routed_rearranged(
    ell: &DeviceEllpack,
    routes: Map<usize, Branch>,
    rows: Seq<u32>,
    a: Seq<LeafSegment>,
    b: Seq<LeafSegment>,
)
    requires
        routed(ell, routes, rows, a),
        a.to_multiset() == b.to_multiset(),
    ensures
        routed(ell, routes, rows, b),
{
    broadcast use vstd::seq_lib::group_to_multiset_ensures;

    assert(a.no_duplicates()) by {
        assert forall|x: int, y: int| 0 <= x < a.len() && 0 <= y < a.len() && x != y implies a[x] != a[y] by {
            if x < y {
                assert(a[x].0 != a[y].0);
            } else {
                assert(a[y].0 != a[x].0);
            }
        }
    }
    a.lemma_multiset_has_no_duplicates();
    assert forall|leaf: LeafSegment| b.to_multiset().contains(leaf) implies b.to_multiset().count(leaf) == 1 by {}
    b.lemma_multiset_has_no_duplicates_conv();
    assert forall|x: int| 0 <= x < b.len() implies a.contains(#[trigger] b[x]) by {
        assert(b.contains(b[x]));
        assert(b.to_multiset().count(b[x]) > 0);
    }
    assert forall|x: int| 0 <= x < b.len() implies leaf_routed(ell, routes, rows, #[trigger] b[x]) by {
        let j = choose|j: int| 0 <= j < a.len() && a[j] == b[x];
        assert(leaf_routed(ell, routes, rows, a[j]));
    }
    assert forall|x: int, y: int| 0 <= x < y < b.len() implies (#[trigger] b[x]).0 != (#[trigger] b[y]).0 by {
        let j = choose|j: int| 0 <= j < a.len() && a[j] == b[x];
        let k = choose|k: int| 0 <= k < a.len() && a[k] == b[y];
        if j < k {
            assert(a[j].0 != a[k].0);
        } else if k < j {
            assert(a[k].0 != a[j].0);
        }
    }
}

/// Leaves of some nodes and one more.
proof fn lemma_as_leaves_push(entries: Seq<ExpandEntry>, e: ExpandEntry)
    ensures
        as_leaves(entries.push(e)) == as_leaves(entries).push(as_leaf(e)),
{
    assert(as_leaves(entries.push(e)) =~= as_leaves(entries).push(as_leaf(e)));
}

/// The nodes that are queued and those that are not are all of them.
proof fn lemma_queued_settled(entries: Seq<ExpandEntry>, n: int)
    requires
        0 <= n <= entries.len(),
    ensures
        as_leaves(queued(entries, n)).to_multiset().add(as_leaves(settled(entries, n)).to_multiset()) == as_leaves(
            entries.subrange(0, n),
        ).to_multiset(),
    decreases n,
{
    broadcast use vstd::seq_lib::group_to_multiset_ensures;

    if n > 0 {
        lemma_queued_settled(entries, n - 1);
        let e = entries[n - 1];
        assert(entries.subrange(0, n) =~= entries.subrange(0, n - 1).push(e));
        lemma_as_leaves_push(entries.subrange(0, n - 1), e);
        lemma_as_leaves_push(queued(entries, n - 1), e);
        lemma_as_leaves_push(settled(entries, n - 1), e);
        assert(as_leaves(queued(entries, n)).to_multiset().add(as_leaves(settled(entries, n)).to_multiset()) =~= as_leaves(
            entries.subrange(0, n),
        ).to_multiset());
    } else {
        assert(as_leaves(queued(entries, n)) =~= Seq::<LeafSegment>::empty());
        assert(as_leaves(settled(entries, n)) =~= Seq::<LeafSegment>::empty());
        assert(as_leaves(entries.subrange(0, n)) =~= Seq::<LeafSegment>::empty());
        assert(as_leaves(queued(entries, n)).to_multiset().add(as_leaves(settled(entries, n)).to_multiset()) =~= as_leaves(
            entries.subrange(0, n),
        ).to_multiset());
    }
}

/// The nodes that are split and those that stay leaves are all of them.
proof fn lemma_admitted_refused(entries: Seq<ExpandEntry>, n: int, p: &crate::tree::param::TrainParam, leaves: int)
    requires
        0 <= n <= entries.len(),
    ensures
        as_leaves(admitted(entries, n, p, leaves)).to_multiset().add(
            as_leaves(refused(entries, n, p, leaves)).to_multiset(),
        ) == as_leaves(entries.subrange(0, n)).to_multiset(),
    decreases n,
{
    broadcast use vstd::seq_lib::group_to_multiset_ensures;

    if n > 0 {
        lemma_admitted_refused(entries, n - 1, p, leaves);
        let e = entries[n - 1];
        assert(entries.subrange(0, n) =~= entries.subrange(0, n - 1).push(e));
        lemma_as_leaves_push(entries.subrange(0, n - 1), e);
        lemma_as_leaves_push(admitted(entries, n - 1, p, leaves), e);
        lemma_as_leaves_push(refused(entries, n - 1, p, leaves), e);
        assert(as_leaves(admitted(entries, n, p, leaves)).to_multiset().add(
            as_leaves(refused(entries, n, p, leaves)).to_multiset(),
        ) =~= as_leaves(entries.subrange(0, n)).to_multiset());
    } else {
        assert(as_leaves(admitted(entries, n, p, leaves)) =~= Seq::<LeafSegment>::empty());
        assert(as_leaves(refused(entries, n, p, leaves)) =~= Seq::<LeafSegment>::empty());
        assert(as_leaves(entries.subrange(0, n)) =~= Seq::<LeafSegment>::empty());
        assert(as_leaves(admitted(entries, n, p, leaves)).to_multiset().add(
            as_leaves(refused(entries, n, p, leaves)).to_multiset(),
        ) =~= as_leaves(entries.subrange(0, n)).to_multiset());
    }
}

/// Sorting nodes rearranges their leaves.
proof fn lemma_by_nid_leaves(entries: Seq<ExpandEntry>)
    ensures
        as_leaves(by_nid(entries)).to_multiset() == as_leaves(entries).to_multiset(),
    decreases entries.len(),
{
    broadcast use vstd::seq_lib::group_to_multiset_ensures;

    if entries.len() > 0 {
        let front = entries.drop_last();
        let e = entries.last();
        lemma_by_nid_leaves(front);
        let rest = by_nid(front);
        lemma_by_nid(front);
        lemma_place(rest, e.nid);
        let p = place(rest, e.nid);
        assert(as_leaves(rest.insert(p, e)) =~= as_leaves(rest).insert(p, as_leaf(e)));
        assert(entries =~= front.push(e));
        lemma_as_leaves_push(front, e);
        assert(as_leaves(by_nid(entries)).to_multiset() =~= as_leaves(entries).to_multiset());
    } else {
        assert(by_nid(entries) =~= entries);
    }
}

/// Three runs as one multiset.
proof fn lemma_three_runs(a: Seq<LeafSegment>, b: Seq<LeafSegment>, c: Seq<LeafSegment>)
    ensures
        (a + b + c).to_multiset() == a.to_multiset().add(b.to_multiset()).add(c.to_multiset()),
{
    vstd::seq_lib::lemma_multiset_commutative(a, b);
    vstd::seq_lib::lemma_multiset_commutative(a + b, c);
}

// -------------------------------------------------------------- the laws ----

/// A tree begins with every row at the root.
pub proof fn lemma_root_routed(grower: &GpuHistGrower, growth: &TreeGrowth, root: ExpandEntry)
    requires
        growth.leaf_segments.len() == 0,
        growth.queue.entries().len() == 0,
        root.nid == 0,
    ensures
        routed(
            &grower.engine.ell,
            Map::empty(),
            growth.partitioner.rows(),
            standing(growth, Seq::empty().push(root)),
        ),
{
    let ell = &grower.engine.ell;
    let routes = Map::<usize, Branch>::empty();
    let rows = growth.partitioner.rows();
    let leaves = standing(growth, Seq::empty().push(root));
    assert(leaves =~= seq![as_leaf(root)]);
    assert forall|i: int| root.seg_begin <= i < root.seg_begin + root.seg_len implies reaches(
        ell,
        routes,
        #[trigger] rows[i],
        root.nid,
    ) by {
        assert(node_after(ell, routes, rows[i], 0) == root.nid);
    }
}

/// Queueing nodes, or leaving them leaves, keeps every row where it leads.
pub proof fn lemma_enqueue_routed(
    grower: &GpuHistGrower,
    was: &TreeGrowth,
    evaluated: Seq<ExpandEntry>,
    now: &TreeGrowth,
    routes: Map<usize, Branch>,
)
    requires
        routed(&grower.engine.ell, routes, was.partitioner.rows(), standing(was, evaluated)),
        now.queue.entries() == was.queue.entries() + queued(evaluated, evaluated.len() as int),
        now.leaf_segments@ == was.leaf_segments@ + as_leaves(settled(evaluated, evaluated.len() as int)),
        now.partitioner == was.partitioner,
    ensures
        routed(&grower.engine.ell, routes, now.partitioner.rows(), standing(now, Seq::empty())),
{
    let n = evaluated.len() as int;
    let l = was.leaf_segments@;
    let q = as_leaves(was.queue.entries());
    let s = as_leaves(settled(evaluated, n));
    let u = as_leaves(queued(evaluated, n));
    let none = as_leaves(Seq::<ExpandEntry>::empty());
    assert(none =~= Seq::<LeafSegment>::empty());
    lemma_queued_settled(evaluated, n);
    assert(evaluated.subrange(0, n) =~= evaluated);
    assert(as_leaves(now.queue.entries()) =~= q + u);
    lemma_three_runs(l, q, as_leaves(evaluated));
    assert(standing(now, Seq::empty()) =~= l + s + (q + u));
    vstd::seq_lib::lemma_multiset_commutative(q, u);
    lemma_three_runs(l, s, q + u);
    assert(standing(was, evaluated).to_multiset() =~= standing(now, Seq::empty()).to_multiset());
    lemma_routed_rearranged(
        &grower.engine.ell,
        routes,
        was.partitioner.rows(),
        standing(was, evaluated),
        standing(now, Seq::empty()),
    );
}

/// Taking a batch from the queue keeps every row where it leads.
pub proof fn lemma_batch_routed(
    grower: &GpuHistGrower,
    was: &TreeGrowth,
    now: &TreeGrowth,
    batch: Seq<ExpandEntry>,
    routes: Map<usize, Branch>,
)
    requires
        routed(&grower.engine.ell, routes, was.partitioner.rows(), standing(was, Seq::empty())),
        now.partitioner == was.partitioner,
        was.queue.by_level() ==> ({
            let entries = was.queue.entries();
            let n = entries.len() as int;
            &&& now.queue.entries().len() == 0
            &&& batch == admitted(entries, n, &grower.param, was.num_leaves as int)
            &&& now.leaf_segments@ == was.leaf_segments@ + as_leaves(
                refused(entries, n, &grower.param, was.num_leaves as int),
            )
        }),
        !was.queue.by_level() && was.queue.entries().len() > 0 ==> exists|k: int, stays: Seq<ExpandEntry>|
            0 <= k < was.queue.entries().len() && #[trigger] pops(
                was.queue.entries(),
                k,
                now.queue.entries(),
                batch,
                stays,
                &grower.param,
                was.num_leaves as int,
            ) && now.leaf_segments@ == was.leaf_segments@ + as_leaves(stays),
        !was.queue.by_level() && was.queue.entries().len() == 0 ==> batch.len() == 0 && now.leaf_segments@
            == was.leaf_segments@ && now.queue.entries() == was.queue.entries(),
    ensures
        routed(&grower.engine.ell, routes, now.partitioner.rows(), standing(now, batch)),
{
    broadcast use vstd::seq_lib::group_to_multiset_ensures;

    let entries = was.queue.entries();
    let n = entries.len() as int;
    let l = was.leaf_segments@;
    let q = as_leaves(entries);
    let none = as_leaves(Seq::<ExpandEntry>::empty());
    assert(none =~= Seq::<LeafSegment>::empty());
    lemma_three_runs(l, q, none);
    if was.queue.by_level() {
        let a = as_leaves(batch);
        let r = as_leaves(refused(entries, n, &grower.param, was.num_leaves as int));
        lemma_admitted_refused(entries, n, &grower.param, was.num_leaves as int);
        assert(entries.subrange(0, n) =~= entries);
        assert(as_leaves(now.queue.entries()) =~= Seq::<LeafSegment>::empty());
        assert(standing(now, batch) =~= l + r + a);
        lemma_three_runs(l, r, a);
        assert(standing(was, Seq::empty()) =~= l + q);
        vstd::seq_lib::lemma_multiset_commutative(l, q);
        assert(standing(was, Seq::empty()).to_multiset() =~= standing(now, batch).to_multiset());
    } else if n > 0 {
        let (k, stays) = choose|k: int, stays: Seq<ExpandEntry>|
            0 <= k < was.queue.entries().len() && #[trigger] pops(
                was.queue.entries(),
                k,
                now.queue.entries(),
                batch,
                stays,
                &grower.param,
                was.num_leaves as int,
            ) && now.leaf_segments@ == was.leaf_segments@ + as_leaves(stays);
        let one = as_leaf(entries[k]);
        let rest = as_leaves(now.queue.entries());
        assert(rest =~= q.remove(k));
        assert(q =~= rest.insert(k, one));
        assert(standing(was, Seq::empty()) =~= l + q);
        vstd::seq_lib::lemma_multiset_commutative(l, q);
        if batch.len() > 0 {
            assert(as_leaves(batch) =~= seq![one]);
            assert(as_leaves(stays) =~= Seq::<LeafSegment>::empty());
            assert(standing(now, batch) =~= (l + rest).push(one));
            vstd::seq_lib::lemma_multiset_commutative(l, rest);
        } else {
            assert(as_leaves(stays) =~= seq![one]);
            assert(as_leaves(batch) =~= Seq::<LeafSegment>::empty());
            assert(standing(now, batch) =~= l.push(one) + rest);
            vstd::seq_lib::lemma_multiset_commutative(l.push(one), rest);
        }
        assert(standing(was, Seq::empty()).to_multiset() =~= standing(now, batch).to_multiset());
    } else {
        assert(as_leaves(batch) =~= Seq::<LeafSegment>::empty());
        assert(standing(was, Seq::empty()) =~= standing(now, batch));
    }
    lemma_routed_rearranged(
        &grower.engine.ell,
        routes,
        was.partitioner.rows(),
        standing(was, Seq::empty()),
        standing(now, batch),
    );
}

/// The routes once a batch was split.
spec fn split_routes(
    routes: Map<usize, Branch>,
    batch: Seq<ExpandEntry>,
    ids: Seq<ChildIds>,
    splits: Seq<SegmentSplit>,
    n: int,
) -> Map<usize, Branch>
    decreases n,
{
    if n <= 0 {
        routes
    } else {
        split_routes(routes, batch, ids, splits, n - 1).insert(
            batch[n - 1].nid,
            Branch { split: splits[n - 1], left: ids[n - 1].left, right: ids[n - 1].right },
        )
    }
}

proof fn lemma_split_routes(
    routes: Map<usize, Branch>,
    batch: Seq<ExpandEntry>,
    ids: Seq<ChildIds>,
    splits: Seq<SegmentSplit>,
    n: int,
)
    requires
        0 <= n <= batch.len(),
        forall|k: int| 0 <= k < batch.len() ==> !routes.contains_key((#[trigger] batch[k]).nid),
        forall|j: int, k: int|
            0 <= j < k < batch.len() ==> (#[trigger] batch[j]).nid != (#[trigger] batch[k]).nid,
    ensures
        ({
            let after = split_routes(routes, batch, ids, splits, n);
            &&& forall|nid: usize| #[trigger]
                after.contains_key(nid) <==> routes.contains_key(nid) || exists|k: int|
                    0 <= k < n && (#[trigger] batch[k]).nid == nid
            &&& forall|nid: usize| #[trigger] routes.contains_key(nid) ==> after[nid] == routes[nid]
            &&& forall|k: int|
                0 <= k < n ==> after[(#[trigger] batch[k]).nid] == (Branch {
                    split: splits[k],
                    left: ids[k].left,
                    right: ids[k].right,
                })
        }),
    decreases n,
{
    if n > 0 {
        lemma_split_routes(routes, batch, ids, splits, n - 1);
        let before = split_routes(routes, batch, ids, splits, n - 1);
        let after = split_routes(routes, batch, ids, splits, n);
        assert forall|nid: usize| #[trigger]
            after.contains_key(nid) <==> routes.contains_key(nid) || exists|k: int|
                0 <= k < n && (#[trigger] batch[k]).nid == nid by {
            if after.contains_key(nid) && !routes.contains_key(nid) {
                if nid == batch[n - 1].nid {
                    assert(batch[n - 1].nid == nid);
                } else {
                    assert(before.contains_key(nid));
                    let k = choose|k: int| 0 <= k < n - 1 && (#[trigger] batch[k]).nid == nid;
                    assert(batch[k].nid == nid);
                }
            }
            if exists|k: int| 0 <= k < n && (#[trigger] batch[k]).nid == nid {
                let k = choose|k: int| 0 <= k < n && (#[trigger] batch[k]).nid == nid;
                if k < n - 1 {
                    assert(before.contains_key(nid));
                }
            }
        }
        assert forall|k: int| 0 <= k < n implies after[(#[trigger] batch[k]).nid] == (Branch {
            split: splits[k],
            left: ids[k].left,
            right: ids[k].right,
        }) by {
            if k < n - 1 {
                assert(batch[k].nid != batch[n - 1].nid);
            }
        }
    }
}

/// The rows in a child's segment are the parent's that the split sends there.
proof fn lemma_child_positions(
    grower: &GpuHistGrower,
    parent: ExpandEntry,
    sp: &SegmentSplit,
    before: Seq<u32>,
    after: Seq<u32>,
    n_left: u32,
    right: bool,
    i: int,
)
    requires
        grower.splits_as(&parent, sp),
        parent.seg_begin + parent.seg_len <= before.len(),
        before.len() == after.len(),
        before.len() <= u32::MAX,
        sp.segment(after) == sp.parted(&grower.engine.ell, before),
        n_left == sp.segment(before).filter(sp.left(&grower.engine.ell)).len(),
        child_seg(parent, n_left, right).0 <= i < child_seg(parent, n_left, right).0 + child_seg(parent, n_left, right).1,
    ensures
        exists|j: int|
            parent.seg_begin <= j < parent.seg_begin + parent.seg_len && #[trigger] before[j] == after[i],
        right == !sp.sends_left(&grower.engine.ell, after[i]),
{
    let ell = &grower.engine.ell;
    let rows = parent_rows(parent, before);
    assert(rows == sp.segment(before));
    lemma_filter_counts(rows, sp.left(ell), sp.right(ell));
    let l = rows.filter(sp.left(ell));
    let r = rows.filter(sp.right(ell));
    let seg = sp.segment(after);
    assert(seg == l + r);
    assert(after[i] == seg[i - parent.seg_begin]);
    let p = if right {
        sp.right(ell)
    } else {
        sp.left(ell)
    };
    let part = rows.filter(p);
    let at = if right {
        i - parent.seg_begin - n_left
    } else {
        i - parent.seg_begin
    };
    assert(part[at] == after[i]);
    assert(part.contains(after[i]));
    rows.lemma_filter_contains_rev(p, after[i]);
    lemma_filter_holds(rows, p, at);
    let j = choose|j: int| 0 <= j < rows.len() && rows[j] == after[i];
    assert(before[parent.seg_begin + j] == after[i]);
}

/// What a filter keeps satisfies it.
proof fn lemma_filter_holds(rows: Seq<u32>, p: spec_fn(u32) -> bool, at: int)
    requires
        0 <= at < rows.filter(p).len(),
    ensures
        p(rows.filter(p)[at]),
    decreases rows.len(),
{
    reveal(Seq::filter);
    if rows.len() > 0 {
        let rest = rows.drop_last();
        if at < rest.filter(p).len() {
            lemma_filter_holds(rest, p, at);
        }
    }
}

/// A segment is that of a child.
spec fn child_leaf(batch: Seq<ExpandEntry>, ids: Seq<ChildIds>, counts: Seq<u32>, pos: int, right: bool, leaf: LeafSegment) -> bool {
    &&& leaf.0 == id_of(ids[pos], right)
    &&& (leaf.1, leaf.2) == child_seg(batch[pos], counts[pos], right)
}

/// A segment is that of a child of one of the first `n` nodes that is not planned.
spec fn unplanned_child(
    grower: &GpuHistGrower,
    batch: Seq<ExpandEntry>,
    ids: Seq<ChildIds>,
    counts: Seq<u32>,
    leaves: int,
    n: int,
    leaf: LeafSegment,
) -> bool {
    exists|pos: int, right: bool|
        0 <= pos < n && !grower.children_expand(&batch[pos], leaves) && #[trigger] child_leaf(
            batch,
            ids,
            counts,
            pos,
            right,
            leaf,
        )
}

/// The children that are leaves already are those of nodes that are not planned, and have ids
/// of their own.
proof fn lemma_new_leaves(
    grower: &GpuHistGrower,
    batch: Seq<ExpandEntry>,
    ids: Seq<ChildIds>,
    counts: Seq<u32>,
    leaves: int,
    n: int,
    routes: Map<usize, Branch>,
    standing: Seq<LeafSegment>,
)
    requires
        0 <= n <= batch.len(),
        ids.len() == batch.len(),
        new_ids(routes, standing, ids),
    ensures
        ({
            let list = grower.new_leaves(batch, ids, counts, leaves, n);
            &&& forall|a: int|
                0 <= a < list.len() ==> unplanned_child(grower, batch, ids, counts, leaves, n, #[trigger] list[a])
            &&& forall|a: int, b: int| 0 <= a < b < list.len() ==> (#[trigger] list[a]).0 != (#[trigger] list[b]).0
        }),
    decreases n,
{
    if n > 0 {
        lemma_new_leaves(grower, batch, ids, counts, leaves, n - 1, routes, standing);
        let rest = grower.new_leaves(batch, ids, counts, leaves, n - 1);
        let list = grower.new_leaves(batch, ids, counts, leaves, n);
        let m = rest.len() as int;
        assert forall|a: int| 0 <= a < list.len() implies unplanned_child(
            grower,
            batch,
            ids,
            counts,
            leaves,
            n,
            #[trigger] list[a],
        ) by {
            if a < m {
                assert(list[a] == rest[a]);
                assert(unplanned_child(grower, batch, ids, counts, leaves, n - 1, rest[a]));
            } else {
                assert(child_leaf(batch, ids, counts, n - 1, a > m, list[a]));
            }
        }
        assert forall|a: int, b: int| 0 <= a < b < list.len() implies (#[trigger] list[a]).0 != (#[trigger] list[b]).0 by {
            if b < m {
                assert(list[a] == rest[a] && list[b] == rest[b]);
            } else {
                assert(list[b].0 == id_of(ids[n - 1], b > m));
                if a < m {
                    assert(list[a] == rest[a]);
                    assert(unplanned_child(grower, batch, ids, counts, leaves, n - 1, rest[a]));
                    let (pos, right) = choose|pos: int, right: bool|
                        0 <= pos < n - 1 && !grower.children_expand(&batch[pos], leaves) && #[trigger] child_leaf(
                            batch,
                            ids,
                            counts,
                            pos,
                            right,
                            rest[a],
                        );
                    assert(list[a].0 == id_of(ids[pos], right));
                } else {
                    assert(list[a].0 == id_of(ids[n - 1], false));
                }
            }
        }
    }
}

/// Planned nodes are named in ascending order.
proof fn lemma_planned_ascends(grower: &GpuHistGrower, batch: Seq<ExpandEntry>, leaves: int, n: int)
    requires
        0 <= n <= batch.len() <= usize::MAX,
    ensures
        ({
            let plan = grower.planned(batch, leaves, n);
            &&& forall|j: int|
                0 <= j < plan.len() ==> (#[trigger] plan[j]) < n && grower.children_expand(&batch[plan[j] as int], leaves)
            &&& forall|j: int, k: int| 0 <= j < k < plan.len() ==> (#[trigger] plan[j]) < (#[trigger] plan[k])
        }),
    decreases n,
{
    if n > 0 {
        lemma_planned_ascends(grower, batch, leaves, n - 1);
        let rest = grower.planned(batch, leaves, n - 1);
        let plan = grower.planned(batch, leaves, n);
        assert forall|j: int| 0 <= j < plan.len() implies (#[trigger] plan[j]) < n && grower.children_expand(
            &batch[plan[j] as int],
            leaves,
        ) by {
            if j < rest.len() {
                assert(plan[j] == rest[j]);
            }
        }
        assert forall|j: int, k: int| 0 <= j < k < plan.len() implies (#[trigger] plan[j]) < (#[trigger] plan[k]) by {
            assert(plan[j] == rest[j]);
            if k < rest.len() {
                assert(plan[k] == rest[k]);
            }
        }
    }
}

/// Splitting a batch leads every row on to the child whose segment it is in, and leaves the
/// others where they are: with the batch's nodes split as they say, the rows of every segment
/// still reach the segment's leaf.
pub proof fn lemma_expand_routed(
    grower: &GpuHistGrower,
    was: &TreeGrowth,
    batch: Seq<ExpandEntry>,
    ids: Seq<ChildIds>,
    now: &TreeGrowth,
    children: Seq<ExpandEntry>,
    routes: Map<usize, Branch>,
)
    requires
        grower.wf(),
        grower.n_rows <= u32::MAX,
        was.wf(grower, batch),
        batch.len() <= usize::MAX,
        ids.len() == batch.len(),
        grower.expanded(was, batch, ids, now, children),
        now.wf(grower, children),
        routed(&grower.engine.ell, routes, was.partitioner.rows(), standing(was, batch)),
        new_ids(routes, standing(was, batch), ids),
    ensures
        exists|after: Map<usize, Branch>|
            #[trigger] branches(grower, routes, batch, ids, after) && routed(
                &grower.engine.ell,
                after,
                now.partitioner.rows(),
                standing(now, children),
            ),
{
    let ell = &grower.engine.ell;
    let (splits, counts, hist, made) = choose|
        splits: Seq<SegmentSplit>,
        counts: Seq<u32>,
        hist: Seq<GradientPairInt64>,
        made: Seq<ExpandEntry>,
    | #[trigger] grower.expands(was, batch, ids, splits, counts, hist, made, now, children);
    let n = batch.len() as int;
    let leaves = was.num_leaves as int;
    let old_nodes = standing(was, batch);
    let base = was.leaf_segments@.len() + was.queue.entries().len();
    assert forall|k: int| 0 <= k < n implies old_nodes[base + k] == as_leaf(#[trigger] batch[k]) by {}
    assert forall|k: int| 0 <= k < n implies old_nodes.contains(as_leaf(#[trigger] batch[k])) && !routes.contains_key(
        batch[k].nid,
    ) by {
        assert(old_nodes[base + k] == as_leaf(batch[k]));
        assert(leaf_routed(ell, routes, was.partitioner.rows(), old_nodes[base + k]));
    }
    assert forall|j: int, k: int| 0 <= j < k < n implies (#[trigger] batch[j]).nid != (#[trigger] batch[k]).nid by {
        assert(old_nodes[base + j].0 != old_nodes[base + k].0);
    }
    let after = split_routes(routes, batch, ids, splits, n);
    lemma_split_routes(routes, batch, ids, splits, n);
    assert(branches(grower, routes, batch, ids, after)) by {
        assert forall|k: int| 0 <= k < batch.len() implies {
            let b = after[(#[trigger] batch[k]).nid];
            grower.splits_as(&batch[k], &b.split) && b.left == ids[k].left && b.right == ids[k].right
        } by {
            lemma_split_applied(grower, was, batch, ids, splits, counts, hist, made, now, children, k);
        }
    }
    let l = was.leaf_segments@;
    let q = as_leaves(was.queue.entries());
    let fresh = grower.new_leaves(batch, ids, counts, leaves, n);
    let plan = grower.planned(batch, leaves, n);
    lemma_new_leaves(grower, batch, ids, counts, leaves, n, routes, old_nodes);
    lemma_planned_ascends(grower, batch, leaves, n);
    let m = as_leaves(made);
    let nodes = l + fresh + q + m;
    // Every segment is an old one or that of a child.
    assert forall|x: int| 0 <= x < nodes.len() implies leaf_routed(ell, after, now.partitioner.rows(), #[trigger] nodes[x]) by {
        if x < l.len() {
            lemma_old_leaf_routed(grower, was, batch, ids, splits, counts, hist, made, now, children, routes, after, x);
            assert(nodes[x] == old_nodes[x]);
        } else if x < l.len() + fresh.len() {
            let a = x - l.len();
            assert(nodes[x] == fresh[a]);
            assert(unplanned_child(grower, batch, ids, counts, leaves, n, fresh[a]));
            let (pos, right) = choose|pos: int, right: bool|
                0 <= pos < n && !grower.children_expand(&batch[pos], leaves) && #[trigger] child_leaf(
                    batch,
                    ids,
                    counts,
                    pos,
                    right,
                    fresh[a],
                );
            lemma_child_routed(
                grower, was, batch, ids, splits, counts, hist, made, now, children, routes, after, pos, right, fresh[a],
            );
        } else if x < l.len() + fresh.len() + q.len() {
            let y = x - fresh.len();
            lemma_old_leaf_routed(grower, was, batch, ids, splits, counts, hist, made, now, children, routes, after, y);
            assert(nodes[x] == q[x - l.len() - fresh.len()]);
            assert(old_nodes[y] == q[y - l.len()]);
        } else {
            let z = x - l.len() - fresh.len() - q.len();
            assert(nodes[x] == as_leaf(made[z]));
            lemma_made_child(grower, batch, ids, counts, plan, hist, made, z);
            lemma_child_routed(
                grower,
                was,
                batch,
                ids,
                splits,
                counts,
                hist,
                made,
                now,
                children,
                routes,
                after,
                plan[z / 2] as int,
                right_built(batch[plan[z / 2] as int]) != (z % 2 == 1),
                as_leaf(made[z]),
            );
        }
    }
    assert forall|x: int, y: int| 0 <= x < y < nodes.len() implies (#[trigger] nodes[x]).0 != (#[trigger] nodes[y]).0 by {
        lemma_nodes_differ(grower, was, batch, ids, counts, hist, made, routes, x, y);
    }
    assert(routed(ell, after, now.partitioner.rows(), nodes));
    lemma_by_nid_leaves(made);
    let c = as_leaves(children);
    assert(standing(now, children) =~= l + fresh + q + c);
    vstd::seq_lib::lemma_multiset_commutative(l + fresh + q, m);
    vstd::seq_lib::lemma_multiset_commutative(l + fresh + q, c);
    lemma_routed_rearranged(ell, after, now.partitioner.rows(), nodes, standing(now, children));
}

/// A child that is not a leaf yet.
proof fn lemma_made_child(
    grower: &GpuHistGrower,
    batch: Seq<ExpandEntry>,
    ids: Seq<ChildIds>,
    counts: Seq<u32>,
    plan: Seq<usize>,
    hist: Seq<GradientPairInt64>,
    made: Seq<ExpandEntry>,
    z: int,
)
    requires
        grower.makes(batch, ids, counts, plan, hist, made),
        0 <= z < made.len(),
    ensures
        0 <= z / 2 < plan.len(),
        child_leaf(
            batch,
            ids,
            counts,
            plan[z / 2] as int,
            right_built(batch[plan[z / 2] as int]) != (z % 2 == 1),
            as_leaf(made[z]),
        ),
{
    let pos = plan[z / 2] as int;
    assert(is_child(
        made[z],
        batch[pos],
        ids[pos],
        counts[pos],
        right_built(batch[pos]) != (z % 2 == 1),
        hist,
        unit_at(grower.n_targets as int, grower.n_bins as int, z, 0),
    ));
}

/// A segment that was not split keeps its rows, and they their leaf.
proof fn lemma_old_leaf_routed(
    grower: &GpuHistGrower,
    was: &TreeGrowth,
    batch: Seq<ExpandEntry>,
    ids: Seq<ChildIds>,
    splits: Seq<SegmentSplit>,
    counts: Seq<u32>,
    hist: Seq<GradientPairInt64>,
    made: Seq<ExpandEntry>,
    now: &TreeGrowth,
    children: Seq<ExpandEntry>,
    routes: Map<usize, Branch>,
    after: Map<usize, Branch>,
    x: int,
)
    requires
        was.wf(grower, batch),
        grower.expands(was, batch, ids, splits, counts, hist, made, now, children),
        routed(&grower.engine.ell, routes, was.partitioner.rows(), standing(was, batch)),
        branches(grower, routes, batch, ids, after),
        0 <= x < was.leaf_segments@.len() + was.queue.entries().len(),
    ensures
        leaf_routed(&grower.engine.ell, after, now.partitioner.rows(), standing(was, batch)[x]),
{
    let ell = &grower.engine.ell;
    let n = batch.len() as int;
    let nodes = standing(was, batch);
    let base = was.leaf_segments@.len() + was.queue.entries().len();
    let leaf = nodes[x];
    let segs = was.segs(batch);
    let before = was.partitioner.rows();
    let rows = now.partitioner.rows();
    assert(segs[x] == (leaf.1, leaf.2));
    assert(segs[x].0 + segs[x].1 <= grower.n_rows);
    assert(leaf_routed(ell, routes, before, nodes[x]));
    assert forall|k: int| 0 <= k < n implies (#[trigger] batch[k]).nid != leaf.0 by {
        assert(nodes[base + k] == as_leaf(batch[k]));
        assert(nodes[x].0 != nodes[base + k].0);
    }
    assert forall|i: int| leaf.1 <= i < leaf.1 + leaf.2 implies reaches(ell, after, #[trigger] rows[i], leaf.0) by {
        lemma_owners_at_least(segs, i);
        assert(owners(segs, i) == 1);
        assert(lies_in(segs[x], i));
        assert forall|s: int| 0 <= s < n implies !#[trigger] splits[s].owns(i) by {
            lemma_split_applied(grower, was, batch, ids, splits, counts, hist, made, now, children, s);
            assert(segs[base + s] == (batch[s].seg_begin, batch[s].seg_len));
            if splits[s].owns(i) {
                assert(lies_in(segs[base + s], i));
            }
        }
        assert(unowned(splits, n, i));
        assert(rows[i] == before[i]);
        lemma_still_reaches(grower, routes, batch, ids, after, before[i], leaf.0);
    }
    assert(!after.contains_key(leaf.0));
}

/// The rows in a child's segment reach the child.
proof fn lemma_child_routed(
    grower: &GpuHistGrower,
    was: &TreeGrowth,
    batch: Seq<ExpandEntry>,
    ids: Seq<ChildIds>,
    splits: Seq<SegmentSplit>,
    counts: Seq<u32>,
    hist: Seq<GradientPairInt64>,
    made: Seq<ExpandEntry>,
    now: &TreeGrowth,
    children: Seq<ExpandEntry>,
    routes: Map<usize, Branch>,
    after: Map<usize, Branch>,
    pos: int,
    right: bool,
    leaf: LeafSegment,
)
    requires
        grower.n_rows <= u32::MAX,
        was.wf(grower, batch),
        now.wf(grower, children),
        ids.len() == batch.len(),
        grower.expands(was, batch, ids, splits, counts, hist, made, now, children),
        routed(&grower.engine.ell, routes, was.partitioner.rows(), standing(was, batch)),
        new_ids(routes, standing(was, batch), ids),
        branches(grower, routes, batch, ids, after),
        forall|k: int|
            0 <= k < batch.len() ==> after[(#[trigger] batch[k]).nid] == (Branch {
                split: splits[k],
                left: ids[k].left,
                right: ids[k].right,
            }),
        0 <= pos < batch.len(),
        child_leaf(batch, ids, counts, pos, right, leaf),
    ensures
        leaf_routed(&grower.engine.ell, after, now.partitioner.rows(), leaf),
{
    let ell = &grower.engine.ell;
    let n = batch.len() as int;
    let nodes = standing(was, batch);
    let base = was.leaf_segments@.len() + was.queue.entries().len();
    let before = was.partitioner.rows();
    let rows = now.partitioner.rows();
    let parent = batch[pos];
    assert forall|k: int| 0 <= k < batch.len() implies nodes.contains(as_leaf(#[trigger] batch[k])) by {
        assert(nodes[base + k] == as_leaf(batch[k]));
    }
    assert(nodes[base + pos] == as_leaf(parent));
    assert(leaf_routed(ell, routes, before, nodes[base + pos]));
    assert(grower.node_ok(was.gpairs@, &was.partitioner, batch[pos]));
    lemma_child_is_leaf(grower, routes, nodes, batch, ids, after, pos, right);
    assert(after[batch[pos].nid].split == splits[pos]);
    assert forall|i: int| leaf.1 <= i < leaf.1 + leaf.2 implies reaches(ell, after, #[trigger] rows[i], leaf.0) by {
        lemma_split_applied(grower, was, batch, ids, splits, counts, hist, made, now, children, pos);
        lemma_child_positions(grower, parent, &splits[pos], before, rows, counts[pos], right, i);
        let j = choose|j: int|
            parent.seg_begin <= j < parent.seg_begin + parent.seg_len && #[trigger] before[j] == rows[i];
        assert(reaches(ell, routes, before[j], parent.nid));
        lemma_reaches_child(grower, routes, nodes, batch, ids, after, rows[i], pos, right);
    }
}

/// Where a segment of the tree comes from.
ghost enum Origin {
    Old(int),
    Child(int, bool),
}

/// The id that an origin has.
spec fn origin_id(leaves: Seq<LeafSegment>, ids: Seq<ChildIds>, origin: Origin) -> usize {
    match origin {
        Origin::Old(x) => leaves[x].0,
        Origin::Child(pos, right) => id_of(ids[pos], right),
    }
}

/// Different origins have different ids.
proof fn lemma_origins_differ(
    routes: Map<usize, Branch>,
    leaves: Seq<LeafSegment>,
    ids: Seq<ChildIds>,
    a: Origin,
    b: Origin,
)
    requires
        new_ids(routes, leaves, ids),
        forall|x: int, y: int| 0 <= x < y < leaves.len() ==> (#[trigger] leaves[x]).0 != (#[trigger] leaves[y]).0,
        match a {
            Origin::Old(x) => 0 <= x < leaves.len(),
            Origin::Child(pos, _) => 0 <= pos < ids.len(),
        },
        match b {
            Origin::Old(x) => 0 <= x < leaves.len(),
            Origin::Child(pos, _) => 0 <= pos < ids.len(),
        },
        a != b,
    ensures
        origin_id(leaves, ids, a) != origin_id(leaves, ids, b),
{
    match (a, b) {
        (Origin::Old(x), Origin::Old(y)) => {
            if x < y {
                assert(leaves[x].0 != leaves[y].0);
            } else {
                assert(leaves[y].0 != leaves[x].0);
            }
        },
        (Origin::Old(x), Origin::Child(pos, right)) => {
            assert(id_of(ids[pos], right) != leaves[x].0);
        },
        (Origin::Child(pos, right), Origin::Old(x)) => {
            assert(id_of(ids[pos], right) != leaves[x].0);
        },
        (Origin::Child(p, r), Origin::Child(s, t)) => {
            if id_of(ids[p], r) == id_of(ids[s], t) {
                assert(p == s && r == t);
            }
        },
    }
}

/// No two segments of the tree have the same leaf.
proof fn lemma_nodes_differ(
    grower: &GpuHistGrower,
    was: &TreeGrowth,
    batch: Seq<ExpandEntry>,
    ids: Seq<ChildIds>,
    counts: Seq<u32>,
    hist: Seq<GradientPairInt64>,
    made: Seq<ExpandEntry>,
    routes: Map<usize, Branch>,
    x: int,
    y: int,
)
    requires
        batch.len() <= usize::MAX,
        ids.len() == batch.len(),
        new_ids(routes, standing(was, batch), ids),
        forall|a: int, b: int|
            0 <= a < b < standing(was, batch).len() ==> (#[trigger] standing(was, batch)[a]).0 != (
            #[trigger] standing(was, batch)[b]).0,
        grower.makes(
            batch,
            ids,
            counts,
            grower.planned(batch, was.num_leaves as int, batch.len() as int),
            hist,
            made,
        ),
        ({
            let fresh = grower.new_leaves(batch, ids, counts, was.num_leaves as int, batch.len() as int);
            let nodes = was.leaf_segments@ + fresh + as_leaves(was.queue.entries()) + as_leaves(made);
            0 <= x < y < nodes.len()
        }),
    ensures
        ({
            let fresh = grower.new_leaves(batch, ids, counts, was.num_leaves as int, batch.len() as int);
            let nodes = was.leaf_segments@ + fresh + as_leaves(was.queue.entries()) + as_leaves(made);
            nodes[x].0 != nodes[y].0
        }),
{
    let n = batch.len() as int;
    let leaves = was.num_leaves as int;
    let l = was.leaf_segments@;
    let q = as_leaves(was.queue.entries());
    let fresh = grower.new_leaves(batch, ids, counts, leaves, n);
    let plan = grower.planned(batch, leaves, n);
    let nodes = l + fresh + q + as_leaves(made);
    let old_nodes = standing(was, batch);
    lemma_new_leaves(grower, batch, ids, counts, leaves, n, routes, old_nodes);
    lemma_planned_ascends(grower, batch, leaves, n);
    let lo = l.len() as int;
    let mid = lo + fresh.len();
    let hi = mid + q.len();
    if lo <= x < mid && lo <= y < mid {
        assert(fresh[x - lo].0 != fresh[y - lo].0);
    } else {
        let a = lemma_origin(grower, was, batch, ids, counts, hist, made, routes, x);
        let b = lemma_origin(grower, was, batch, ids, counts, hist, made, routes, y);
        if x >= hi && y >= hi {
            let i = x - hi;
            let j = y - hi;
            if i / 2 < j / 2 {
                assert(plan[i / 2] < plan[j / 2]);
            } else {
                assert(i / 2 == j / 2 && i % 2 != j % 2);
            }
        }
        assert(a != b);
        lemma_origins_differ(routes, old_nodes, ids, a, b);
    }
}

/// Where a segment comes from.
proof fn lemma_origin(
    grower: &GpuHistGrower,
    was: &TreeGrowth,
    batch: Seq<ExpandEntry>,
    ids: Seq<ChildIds>,
    counts: Seq<u32>,
    hist: Seq<GradientPairInt64>,
    made: Seq<ExpandEntry>,
    routes: Map<usize, Branch>,
    x: int,
) -> (origin: Origin)
    requires
        batch.len() <= usize::MAX,
        ids.len() == batch.len(),
        new_ids(routes, standing(was, batch), ids),
        grower.makes(
            batch,
            ids,
            counts,
            grower.planned(batch, was.num_leaves as int, batch.len() as int),
            hist,
            made,
        ),
        ({
            let fresh = grower.new_leaves(batch, ids, counts, was.num_leaves as int, batch.len() as int);
            let nodes = was.leaf_segments@ + fresh + as_leaves(was.queue.entries()) + as_leaves(made);
            0 <= x < nodes.len()
        }),
    ensures
        ({
            let leaves = was.num_leaves as int;
            let l = was.leaf_segments@;
            let q = as_leaves(was.queue.entries());
            let fresh = grower.new_leaves(batch, ids, counts, leaves, batch.len() as int);
            let plan = grower.planned(batch, leaves, batch.len() as int);
            let nodes = l + fresh + q + as_leaves(made);
            let lo = l.len() as int;
            let mid = lo + fresh.len();
            let hi = mid + q.len();
            &&& nodes[x].0 == origin_id(standing(was, batch), ids, origin)
            &&& match origin {
                Origin::Old(k) => (0 <= k < l.len() + q.len()) && k == (if x < lo {
                    x
                } else {
                    x - fresh.len()
                }) && (x < lo || mid <= x < hi),
                Origin::Child(pos, right) => 0 <= pos < batch.len() && (if x >= hi {
                    pos == plan[(x - hi) / 2] && right == (right_built(batch[pos]) != ((x - hi) % 2 == 1))
                        && grower.children_expand(&batch[pos], leaves)
                } else {
                    lo <= x < mid && !grower.children_expand(&batch[pos], leaves)
                }),
            }
        }),
{
    let n = batch.len() as int;
    let leaves = was.num_leaves as int;
    let l = was.leaf_segments@;
    let q = as_leaves(was.queue.entries());
    let fresh = grower.new_leaves(batch, ids, counts, leaves, n);
    let plan = grower.planned(batch, leaves, n);
    let nodes = l + fresh + q + as_leaves(made);
    let old_nodes = standing(was, batch);
    lemma_new_leaves(grower, batch, ids, counts, leaves, n, routes, old_nodes);
    lemma_planned_ascends(grower, batch, leaves, n);
    let lo = l.len() as int;
    let mid = lo + fresh.len();
    let hi = mid + q.len();
    if x < lo {
        assert(nodes[x] == l[x] && old_nodes[x] == l[x]);
        Origin::Old(x)
    } else if x < mid {
        let a = x - lo;
        assert(nodes[x] == fresh[a]);
        assert(unplanned_child(grower, batch, ids, counts, leaves, n, fresh[a]));
            let (pos, right) = choose|pos: int, right: bool|
                0 <= pos < n && !grower.children_expand(&batch[pos], leaves) && #[trigger] child_leaf(
                    batch,
                    ids,
                    counts,
                    pos,
                    right,
                    fresh[a],
                );
        Origin::Child(pos, right)
    } else if x < hi {
        assert(nodes[x] == q[x - mid] && old_nodes[x - fresh.len()] == q[x - mid]);
        Origin::Old(x - fresh.len())
    } else {
        let z = x - hi;
        assert(nodes[x] == as_leaf(made[z]));
        lemma_made_child(grower, batch, ids, counts, plan, hist, made, z);
        assert(plan[z / 2] < n);
        Origin::Child(plan[z / 2] as int, right_built(batch[plan[z / 2] as int]) != (z % 2 == 1))
    }
}

/// In a grown tree each segment's leaf is the one its rows reach.
pub proof fn lemma_grown_routed(
    grower: &GpuHistGrower,
    growth: &TreeGrowth,
    tree: &GrownTree,
    routes: Map<usize, Branch>,
    k: int,
    i: int,
)
    requires
        routed(&grower.engine.ell, routes, growth.partitioner.rows(), standing(growth, Seq::empty())),
        tree.ridx@ == growth.partitioner.rows(),
        tree.leaf_segments@ == growth.leaf_segments@ + as_leaves(growth.queue.entries()),
        0 <= k < tree.leaf_segments.len(),
        tree.leaf_segments[k].1 <= i < tree.leaf_segments[k].1 + tree.leaf_segments[k].2,
    ensures
        reaches(&grower.engine.ell, routes, tree.ridx[i], tree.leaf_segments[k].0),
{
    let leaves = standing(growth, Seq::empty());
    assert(leaves =~= tree.leaf_segments@);
    assert(leaf_routed(&grower.engine.ell, routes, growth.partitioner.rows(), leaves[k]));
    assert(growth.partitioner.rows()[i] == tree.ridx[i]);
}

} // verus!
