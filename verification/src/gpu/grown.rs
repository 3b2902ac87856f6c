//! Adding a grown tree's leaf values to the predictions without walking the tree.

use vstd::prelude::*;

use crate::gpu::growth::{all_rows, leaf_segs, GrownTree, LeafSegment};
use crate::gpu::segments::{lies_in, owners, within, Segment};

verus! {

/// One addition to the predictions: the leaf whose values are added, and the slot from which
/// they are.
pub type Update = (usize, usize);

/// The rows of the first `k` leaves, leaf after leaf.
pub open spec fn leaf_rows(ridx: Seq<u32>, segs: Seq<Segment>) -> Seq<u32>
    decreases segs.len(),
{
    if segs.len() == 0 {
        Seq::empty()
    } else {
        leaf_rows(ridx, segs.drop_last()) + ridx.subrange(segs.last().0 as int, segs.last().0 + segs.last().1)
    }
}

/// The leaves those rows ended in.
pub open spec fn leaf_nodes(leaves: Seq<LeafSegment>) -> Seq<usize>
    decreases leaves.len(),
{
    if leaves.len() == 0 {
        Seq::empty()
    } else {
        leaf_nodes(leaves.drop_last()) + Seq::new(leaves.last().2 as nat, |j: int| leaves.last().0)
    }
}

/// How often `x` stands among positions `lo..hi`.
pub open spec fn occurrences(s: Seq<u32>, x: u32, lo: int, hi: int) -> int
    decreases hi - lo,
{
    if hi <= lo {
        0
    } else {
        occurrences(s, x, lo, hi - 1) + (if s[hi - 1] == x {
            1int
        } else {
            0
        })
    }
}

proof fn lemma_occurrences_concat(a: Seq<u32>, b: Seq<u32>, x: u32, n: int)
    requires
        0 <= n <= b.len(),
    ensures
        occurrences(a + b, x, 0, a.len() + n) == occurrences(a, x, 0, a.len() as int) + occurrences(b, x, 0, n),
    decreases n,
{
    if n > 0 {
        lemma_occurrences_concat(a, b, x, n - 1);
    } else {
        lemma_occurrences_same(a + b, a, x, a.len() as int);
    }
}

proof fn lemma_occurrences_same(a: Seq<u32>, b: Seq<u32>, x: u32, n: int)
    requires
        forall|i: int| 0 <= i < n ==> #[trigger] a[i] == b[i],
    ensures
        occurrences(a, x, 0, n) == occurrences(b, x, 0, n),
    decreases n,
{
    if n > 0 {
        lemma_occurrences_same(a, b, x, n - 1);
        assert(a[n - 1] == b[n - 1]);
    }
}

proof fn lemma_occurrences_shift(s: Seq<u32>, x: u32, lo: int, n: int)
    requires
        0 <= lo,
        0 <= n,
        lo + n <= s.len(),
    ensures
        occurrences(s.subrange(lo, lo + n), x, 0, n) == occurrences(s, x, lo, lo + n),
    decreases n,
{
    if n > 0 {
        lemma_occurrences_shift(s, x, lo, n - 1);
        lemma_occurrences_same(s.subrange(lo, lo + n), s.subrange(lo, lo + n - 1), x, n - 1);
    }
}

proof fn lemma_occurrences_multiset(s: Seq<u32>, x: u32)
    ensures
        occurrences(s, x, 0, s.len() as int) == s.to_multiset().count(x),
    decreases s.len(),
{
    broadcast use vstd::seq_lib::group_to_multiset_ensures;

    if s.len() > 0 {
        let rest = s.drop_last();
        lemma_occurrences_multiset(rest, x);
        lemma_occurrences_same(s, rest, x, rest.len() as int);
        assert(s =~= rest.push(s.last()));
    }
}

/// How often `x` stands among the first `n` positions, each counted as often as segments
/// cover it.
spec fn hits(ridx: Seq<u32>, segs: Seq<Segment>, x: u32, n: int) -> int
    decreases n,
{
    if n <= 0 {
        0
    } else {
        hits(ridx, segs, x, n - 1) + (if ridx[n - 1] == x {
            owners(segs, n - 1)
        } else {
            0
        })
    }
}

/// How often `x` stands among those of the first `n` positions that lie in the segment.
spec fn seg_hits(ridx: Seq<u32>, seg: Segment, x: u32, n: int) -> int {
    if n <= seg.0 {
        0
    } else if n <= seg.0 + seg.1 {
        occurrences(ridx, x, seg.0 as int, n)
    } else {
        occurrences(ridx, x, seg.0 as int, seg.0 + seg.1)
    }
}

proof fn lemma_hits_last(ridx: Seq<u32>, segs: Seq<Segment>, x: u32, n: int)
    requires
        segs.len() > 0,
        0 <= n,
    ensures
        hits(ridx, segs, x, n) == hits(ridx, segs.drop_last(), x, n) + seg_hits(ridx, segs.last(), x, n),
    decreases n,
{
    if n > 0 {
        lemma_hits_last(ridx, segs, x, n - 1);
        let seg = segs.last();
        assert(occurrences(ridx, x, seg.0 as int, seg.0 as int) == 0);
        assert(lies_in(seg, n - 1) ==> occurrences(ridx, x, seg.0 as int, n) == occurrences(
            ridx,
            x,
            seg.0 as int,
            n - 1,
        ) + (if ridx[n - 1] == x {
            1int
        } else {
            0
        }));
    }
}

proof fn lemma_hits_none(ridx: Seq<u32>, segs: Seq<Segment>, x: u32, n: int)
    requires
        segs.len() == 0,
    ensures
        hits(ridx, segs, x, n) == 0,
    decreases n,
{
    if n > 0 {
        lemma_hits_none(ridx, segs, x, n - 1);
    }
}

proof fn lemma_leaf_rows_hits(ridx: Seq<u32>, segs: Seq<Segment>, x: u32)
    requires
        within(segs, ridx.len() as int),
    ensures
        occurrences(leaf_rows(ridx, segs), x, 0, leaf_rows(ridx, segs).len() as int) == hits(
            ridx,
            segs,
            x,
            ridx.len() as int,
        ),
    decreases segs.len(),
{
    if segs.len() == 0 {
        lemma_hits_none(ridx, segs, x, ridx.len() as int);
    } else {
        let rest = segs.drop_last();
        let seg = segs.last();
        assert forall|k: int| 0 <= k < rest.len() implies (#[trigger] rest[k]).0 + rest[k].1 <= ridx.len() by {
            assert(rest[k] == segs[k]);
        }
        assert(segs[segs.len() - 1].0 + segs[segs.len() - 1].1 <= ridx.len());
        lemma_leaf_rows_hits(ridx, rest, x);
        lemma_hits_last(ridx, segs, x, ridx.len() as int);
        let run = ridx.subrange(seg.0 as int, seg.0 + seg.1);
        lemma_occurrences_concat(leaf_rows(ridx, rest), run, x, run.len() as int);
        lemma_occurrences_shift(ridx, x, seg.0 as int, seg.1 as int);
    }
}

proof fn lemma_hits_once(ridx: Seq<u32>, segs: Seq<Segment>, x: u32, n: int)
    requires
        0 <= n,
        forall|i: int| 0 <= i < n ==> #[trigger] owners(segs, i) == 1,
    ensures
        hits(ridx, segs, x, n) == occurrences(ridx, x, 0, n),
    decreases n,
{
    if n > 0 {
        lemma_hits_once(ridx, segs, x, n - 1);
        assert(owners(segs, n - 1) == 1);
    }
}

proof fn lemma_all_rows_once(n: int, r: u32, m: int)
    requires
        0 <= m <= n <= u32::MAX,
    ensures
        occurrences(all_rows(n), r, 0, m) == (if r < m {
            1int
        } else {
            0
        }),
    decreases m,
{
    if m > 0 {
        lemma_all_rows_once(n, r, m - 1);
    }
}

/// Every row ends in one leaf: among the rows of the leaves, leaf after leaf, each occurs
/// once.
pub proof fn lemma_every_row_once(tree: &GrownTree, n: int, r: u32)
    requires
        tree.wf(n),
        0 <= n <= u32::MAX,
        r < n,
    ensures
        occurrences(
            leaf_rows(tree.ridx@, leaf_segs(tree.leaf_segments@)),
            r,
            0,
            leaf_rows(tree.ridx@, leaf_segs(tree.leaf_segments@)).len() as int,
        ) == 1,
{
    let segs = leaf_segs(tree.leaf_segments@);
    lemma_leaf_rows_hits(tree.ridx@, segs, r);
    lemma_hits_once(tree.ridx@, segs, r, n);
    lemma_occurrences_multiset(tree.ridx@, r);
    lemma_occurrences_multiset(all_rows(n), r);
    lemma_all_rows_once(n, r, n);
}

impl GrownTree {
    /// Where each row's leaf is added to predictions of `n_groups` columns, from column
    /// `group` on: leaf after leaf, in segment order.
    pub fn update_slots(&self, n_groups: usize, group: usize) -> (updates: Vec<Update>)
        requires
            within(leaf_segs(self.leaf_segments@), self.ridx.len() as int),
            forall|i: int|
                0 <= i < self.ridx.len() ==> #[trigger] self.ridx[i] * n_groups + group <= usize::MAX,
        ensures
            updates.len() == leaf_rows(self.ridx@, leaf_segs(self.leaf_segments@)).len(),
            updates.len() == leaf_nodes(self.leaf_segments@).len(),
            forall|k: int|
                0 <= k < updates.len() ==> (#[trigger] updates[k]).0 == leaf_nodes(self.leaf_segments@)[k]
                    && updates[k].1 == leaf_rows(self.ridx@, leaf_segs(self.leaf_segments@))[k] * n_groups + group,
    {
        let ghost segs = leaf_segs(self.leaf_segments@);
        let mut updates: Vec<Update> = Vec::new();
        let mut k: usize = 0;
        while k < self.leaf_segments.len()
            invariant
                segs == leaf_segs(self.leaf_segments@),
                within(segs, self.ridx.len() as int),
                forall|i: int|
                    0 <= i < self.ridx.len() ==> #[trigger] self.ridx[i] * n_groups + group <= usize::MAX,
                k <= self.leaf_segments.len(),
                updates.len() == leaf_rows(self.ridx@, segs.subrange(0, k as int)).len(),
                updates.len() == leaf_nodes(self.leaf_segments@.subrange(0, k as int)).len(),
                forall|j: int|
                    0 <= j < updates.len() ==> (#[trigger] updates[j]).0 == leaf_nodes(
                        self.leaf_segments@.subrange(0, k as int),
                    )[j] && updates[j].1 == leaf_rows(self.ridx@, segs.subrange(0, k as int))[j] * n_groups + group,
            decreases self.leaf_segments.len() - k,
        {
            let (nid, begin, len) = self.leaf_segments[k];
            let ghost was = updates@;
            let ghost head = segs.subrange(0, k as int);
            let ghost nodes = self.leaf_segments@.subrange(0, k as int);
            proof {
                assert(segs[k as int].0 + segs[k as int].1 <= self.ridx.len());
                assert(segs.subrange(0, k + 1).drop_last() =~= head);
                assert(self.leaf_segments@.subrange(0, k + 1).drop_last() =~= nodes);
            }
            let mut j: u32 = 0;
            while j < len
                invariant
                    segs == leaf_segs(self.leaf_segments@),
                    begin + len <= self.ridx.len(),
                    begin + len <= u32::MAX || begin + len <= self.ridx.len(),
                    forall|i: int|
                        0 <= i < self.ridx.len() ==> #[trigger] self.ridx[i] * n_groups + group <= usize::MAX,
                    j <= len,
                    updates.len() == was.len() + j,
                    forall|x: int| 0 <= x < was.len() ==> #[trigger] updates[x] == was[x],
                    forall|x: int|
                        0 <= x < j ==> #[trigger] updates[was.len() + x] == (
                            nid,
                            (self.ridx[begin + x] * n_groups + group) as usize,
                        ),
                decreases len - j,
            {
                let row: usize = self.ridx[begin as usize + j as usize] as usize;
                assert(self.ridx[begin + j] * n_groups + group <= usize::MAX);
                assert(row * n_groups >= 0) by (nonlinear_arith)
                    requires
                        row >= 0,
                        n_groups >= 0,
                ;
                updates.push((nid, row * n_groups + group));
                j += 1;
            }
            proof {
                let rows = leaf_rows(self.ridx@, segs.subrange(0, k + 1));
                let named = leaf_nodes(self.leaf_segments@.subrange(0, k + 1));
                assert(segs.subrange(0, k + 1).last() == segs[k as int]);
                assert(rows == leaf_rows(self.ridx@, head) + self.ridx@.subrange(begin as int, begin + len));
                assert(named == leaf_nodes(nodes) + Seq::new(len as nat, |j: int| nid));
                assert forall|x: int| 0 <= x < updates.len() implies (#[trigger] updates[x]).0 == named[x]
                    && updates[x].1 == rows[x] * n_groups + group by {
                    if x < was.len() {
                        assert(updates[x] == was[x]);
                    } else {
                        let y = x - was.len();
                        assert(updates[was.len() + y] == (nid, (self.ridx[begin + y] * n_groups + group) as usize));
                    }
                }
            }
            k += 1;
        }
        proof {
            assert(segs.subrange(0, self.leaf_segments.len() as int) =~= segs);
            assert(self.leaf_segments@.subrange(0, self.leaf_segments.len() as int) =~= self.leaf_segments@);
        }
        updates
    }
}

/// The rows of the leaves stand leaf after leaf: one leaf more adds its rows, in their order, and as
/// often its node.
pub proof fn lemma_leaf_adds(ridx: Seq<u32>, leaves: Seq<LeafSegment>, leaf: LeafSegment, j: int)
    requires
        leaf.1 + leaf.2 <= ridx.len(),
        0 <= j < leaf.2,
    ensures
        leaf_rows(ridx, Seq::empty()).len() == 0,
        leaf_nodes(Seq::empty()).len() == 0,
        leaf_nodes(leaves.push(leaf)).len() == leaf_nodes(leaves).len() + leaf.2,
        leaf_nodes(leaves.push(leaf))[leaf_nodes(leaves).len() + j] == leaf.0,
        leaf_rows(ridx, leaf_segs(leaves.push(leaf))).len() == leaf_rows(ridx, leaf_segs(leaves)).len() + leaf.2,
        leaf_rows(ridx, leaf_segs(leaves.push(leaf)))[leaf_rows(ridx, leaf_segs(leaves)).len() + j] == ridx[leaf.1 + j],
        forall|k: int|
            0 <= k < leaf_nodes(leaves).len() ==> #[trigger] leaf_nodes(leaves.push(leaf))[k] == leaf_nodes(leaves)[k],
        forall|k: int|
            0 <= k < leaf_rows(ridx, leaf_segs(leaves)).len() ==> #[trigger] leaf_rows(
                ridx,
                leaf_segs(leaves.push(leaf)),
            )[k] == leaf_rows(ridx, leaf_segs(leaves))[k],
{
    let more = leaves.push(leaf);
    assert(more.drop_last() =~= leaves);
    let segs = leaf_segs(more);
    assert(segs.drop_last() =~= leaf_segs(leaves));
    assert(segs.last() == (leaf.1, leaf.2));
    let none: Seq<LeafSegment> = Seq::empty();
    assert(leaf_nodes(none).len() == 0);
}

} // verus!
