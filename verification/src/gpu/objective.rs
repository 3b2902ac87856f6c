//! A round's passes over the predictions: which row gets which leaf's value, and which rows
//! a metric adds up together.

use vstd::prelude::*;

use crate::data::radix::{comes_before, listed, radix_order, sorts};
use crate::gpu::segments::{lemma_owner_exists, lemma_owners_at_least, lies_in, owners, tile, Segment};
use vstd::arithmetic::power2::{lemma2_to64, lemma_pow2_unfold, pow2};

verus! {

/// Halving steps of the segment search: enough for `2^24` leaf segments.
pub const SEARCH_STEPS: u32 = 24;

/// A leaf's rows: which of the two row buffers holds them, and their segment of it.
#[derive(Clone, Copy, Debug, PartialEq, Eq, Structural)]
pub struct LeafRows {
    pub side: u32,
    pub begin: u32,
    pub len: u32,
}

/// The leaves' segments.
pub open spec fn segs_of(leaves: Seq<LeafRows>) -> Seq<Segment> {
    Seq::new(leaves.len(), |k: int| (leaves[k].begin, leaves[k].len))
}

/// The leaves that have rows, by where their segments begin: `order[k]` is the leaf, and
/// `begin[k]` where it begins.
#[derive(Clone, Debug)]
pub struct LeafTable {
    pub order: Vec<usize>,
    pub begin: Vec<u32>,
}

impl LeafTable {
    /// The table lists every leaf with rows, in the order of their segments.
    pub open spec fn wf(&self, leaves: Seq<LeafRows>) -> bool {
        &&& self.order.len() == self.begin.len()
        &&& forall|k: int|
            0 <= k < self.order.len() ==> (#[trigger] self.order[k]) < leaves.len() && self.begin[k]
                == leaves[self.order[k] as int].begin && leaves[self.order[k] as int].len > 0
        &&& forall|j: int, k: int|
            0 <= j < k < self.begin.len() ==> #[trigger] self.begin[j] <= #[trigger] self.begin[k]
        &&& forall|s: int| 0 <= s < leaves.len() && leaves[s].len > 0 ==> #[trigger] listed(self.order@, s)
    }
}

/// The leaves that have rows, by where their segments begin.
pub fn leaf_table(leaves: &[LeafRows]) -> (table: LeafTable)
    ensures
        table.wf(leaves@),
        table.order@.no_duplicates(),
        table.order.len() <= leaves.len(),
{
    let mut keys: Vec<u32> = Vec::with_capacity(leaves.len());
    let mut i: usize = 0;
    while i < leaves.len()
        invariant
            i <= leaves.len(),
            keys.len() == i,
            forall|k: int| 0 <= k < i ==> #[trigger] keys[k] == leaves[k].begin,
        decreases leaves.len() - i,
    {
        keys.push(leaves[i].begin);
        i += 1;
    }
    let sorted: Vec<usize> = radix_order(keys.as_slice());
    let mut order: Vec<usize> = Vec::new();
    let mut begin: Vec<u32> = Vec::new();
    let mut i: usize = 0;
    while i < sorted.len()
        invariant
            i <= sorted.len(),
            keys.len() == leaves.len(),
            sorts(keys@, sorted@),
            forall|k: int| 0 <= k < keys.len() ==> #[trigger] keys[k] == leaves[k].begin,
            order.len() == begin.len(),
            order.len() <= i,
            order@.no_duplicates(),
            forall|k: int|
                0 <= k < order.len() ==> (#[trigger] order[k]) < leaves.len() && begin[k] == leaves[order[k] as int].begin
                    && leaves[order[k] as int].len > 0,
            forall|k: int|
                0 <= k < order.len() ==> exists|j: int| 0 <= j < i && sorted[j] == #[trigger] order[k],
            forall|j: int, k: int| 0 <= j < k < begin.len() ==> #[trigger] begin[j] <= #[trigger] begin[k],
            forall|j: int|
                0 <= j < i && leaves[(#[trigger] sorted[j]) as int].len > 0 ==> listed(order@, sorted[j] as int),
        decreases sorted.len() - i,
    {
        let s: usize = sorted[i];
        assert(sorted[i as int] < keys.len());
        let ghost was = order@;
        if leaves[s].len > 0 {
            proof {
                assert forall|k: int| 0 <= k < order.len() implies #[trigger] begin[k] <= leaves[s as int].begin
                    && order[k] != s by {
                    let j = choose|j: int| 0 <= j < i && sorted[j] == order[k];
                    assert(comes_before(keys@, sorted[j] as int, sorted[i as int] as int));
                    assert(keys[order[k] as int] == leaves[order[k] as int].begin);
                    assert(keys[s as int] == leaves[s as int].begin);
                }
            }
            order.push(s);
            begin.push(leaves[s].begin);
        }
        proof {
            assert forall|k: int| 0 <= k < order.len() implies exists|j: int|
                0 <= j < i + 1 && sorted[j] == #[trigger] order[k] by {
                if k < was.len() {
                    assert(order[k] == was[k]);
                    let j = choose|j: int| 0 <= j < i && sorted[j] == was[k];
                    assert(sorted[j] == order[k]);
                } else {
                    assert(sorted[i as int] == order[k]);
                }
            }
            assert forall|j: int| 0 <= j < i + 1 && leaves[(#[trigger] sorted[j]) as int].len > 0 implies listed(
                order@,
                sorted[j] as int,
            ) by {
                if j < i {
                    assert(listed(was, sorted[j] as int));
                    let x = choose|x: int| 0 <= x < was.len() && was[x] == sorted[j];
                    assert(order[x] == sorted[j]);
                } else {
                    assert(order[order.len() - 1] == sorted[j]);
                }
            }
        }
        i += 1;
    }
    let table = LeafTable { order, begin };
    proof {
        assert forall|s: int| 0 <= s < leaves.len() && leaves[s].len > 0 implies #[trigger] listed(table.order@, s) by {
            assert(listed(sorted@, s));
            let j = choose|j: int| 0 <= j < sorted.len() && sorted[j] == s;
            assert(listed(table.order@, sorted[j] as int));
        }
    }
    table
}

/// The last segment that begins at or before position `i`, by a fixed number of halving
/// steps.
fn last_before(begin: &Vec<u32>, i: u32) -> (s: usize)
    requires
        0 < begin.len() <= 0x0100_0000,
        begin[0] <= i,
        forall|j: int, k: int| 0 <= j < k < begin.len() ==> #[trigger] begin[j] <= #[trigger] begin[k],
    ensures
        s < begin.len(),
        begin[s as int] <= i,
        s + 1 < begin.len() ==> i < begin[s + 1],
{
    let mut lo: usize = 0;
    let mut n: usize = begin.len();
    let mut step: u32 = 0;
    proof {
        lemma2_to64();
    }
    while step < SEARCH_STEPS
        invariant
            step <= SEARCH_STEPS,
            0 < n <= pow2((SEARCH_STEPS - step) as nat),
            lo + n <= begin.len(),
            begin[lo as int] <= i,
            lo + n < begin.len() ==> i < begin[lo + n],
            forall|j: int, k: int| 0 <= j < k < begin.len() ==> #[trigger] begin[j] <= #[trigger] begin[k],
        decreases SEARCH_STEPS - step,
    {
        // Once the range is one segment wide the step does nothing.
        let half: usize = n / 2;
        let mid: usize = lo + half;
        proof {
            lemma_pow2_unfold((SEARCH_STEPS - step) as nat);
        }
        if half > 0 {
            if begin[mid] <= i {
                lo = mid;
            } else {
                assert(mid < lo + n - half ==> begin[mid as int] <= begin[lo + n - half] || lo + n - half
                    == begin.len());
            }
        }
        n = n - half;
        step += 1;
    }
    proof {
        lemma2_to64();
    }
    lo
}

/// The leaf whose segment holds position `i`.
pub open spec fn holder(leaves: Seq<LeafRows>, i: int, s: int) -> bool {
    0 <= s < leaves.len() && leaves[s].begin <= i < leaves[s].begin + leaves[s].len
}

impl LeafTable {
    /// The leaf whose segment holds position `i`, found among the segments' beginnings.
    pub fn leaf_at(&self, leaves: &[LeafRows], n_rows: u32, i: u32) -> (leaf: usize)
        requires
            self.wf(leaves@),
            tile(segs_of(leaves@), n_rows as int),
            i < n_rows,
            self.order.len() <= 0x0100_0000,
        ensures
            holder(leaves@, i as int, leaf as int),
            forall|s: int| holder(leaves@, i as int, s) ==> s == leaf,
    {
        let ghost segs = segs_of(leaves@);
        proof {
            self.lemma_first(leaves@, n_rows as int, i as int);
        }
        let s: usize = last_before(&self.begin, i);
        let leaf: usize = self.order[s];
        proof {
            self.lemma_holder(leaves@, n_rows as int, i as int, s as int);
            assert forall|t: int| holder(leaves@, i as int, t) implies t == leaf by {
                lemma_owners_at_least(segs, i as int);
                assert(owners(segs, i as int) == 1);
                assert(lies_in(segs[t], i as int));
                assert(lies_in(segs[leaf as int], i as int));
            }
        }
        leaf
    }

    /// Some leaf with rows begins at or before a position.
    proof fn lemma_first(&self, leaves: Seq<LeafRows>, n: int, i: int)
        requires
            self.wf(leaves),
            tile(segs_of(leaves), n),
            0 <= i < n,
        ensures
            self.begin.len() > 0,
            self.begin[0] <= i,
    {
        let segs = segs_of(leaves);
        assert(owners(segs, i) == 1);
        lemma_owner_exists(segs, i);
        let k = choose|k: int| 0 <= k < segs.len() && lies_in(#[trigger] segs[k], i);
        assert(leaves[k].len > 0);
        assert(listed(self.order@, k));
        let x = choose|x: int| 0 <= x < self.order.len() && self.order[x] == k;
        assert(self.begin[x] == leaves[k].begin);
        if x > 0 {
            assert(self.begin[0] <= self.begin[x]);
        }
    }

    /// The last leaf that begins at or before a position holds it.
    proof fn lemma_holder(&self, leaves: Seq<LeafRows>, n: int, i: int, s: int)
        requires
            self.wf(leaves),
            tile(segs_of(leaves), n),
            0 <= i < n,
            0 <= s < self.begin.len(),
            self.begin[s] <= i,
            s + 1 < self.begin.len() ==> i < self.begin[s + 1],
        ensures
            holder(leaves, i, self.order[s] as int),
    {
        let segs = segs_of(leaves);
        assert(owners(segs, i) == 1);
        lemma_owner_exists(segs, i);
        let k = choose|k: int| 0 <= k < segs.len() && lies_in(#[trigger] segs[k], i);
        assert(listed(self.order@, k));
        let x = choose|x: int| 0 <= x < self.order.len() && self.order[x] == k;
        assert(self.begin[x] == leaves[k].begin);
        let leaf = self.order[s] as int;
        if x != s {
            if x > s {
                if s + 1 < x {
                    assert(self.begin[s + 1] <= self.begin[x]);
                }
            } else {
                // The leaf at `s` begins inside the one that holds the position.
                assert(self.begin[x] <= self.begin[s]);
                let b = leaves[leaf].begin as int;
                assert(lies_in(segs[k], b));
                assert(lies_in(segs[leaf], b));
                lemma_owners_at_least(segs, b);
                assert(segs[leaf].0 + segs[leaf].1 <= n);
                assert(owners(segs, b) == 1);
                if leaf != k {
                    if leaf < k {
                        assert(lies_in(segs[leaf], b) && lies_in(segs[k], b));
                    }
                }
            }
        }
    }
}

/// The row at position `i` of the row index, and the leaf it ended in: the row is read from
/// whichever buffer holds the leaf's segment.
pub fn row_update(
    table: &LeafTable,
    leaves: &[LeafRows],
    ridx0: &Vec<u32>,
    ridx1: &Vec<u32>,
    n_rows: u32,
    i: u32,
) -> (update: (u32, usize))
    requires
        table.wf(leaves@),
        tile(segs_of(leaves@), n_rows as int),
        i < n_rows,
        table.order.len() <= 0x0100_0000,
        ridx0.len() == n_rows,
        ridx1.len() == n_rows,
    ensures
        holder(leaves@, i as int, update.1 as int),
        update.0 == (if leaves[update.1 as int].side == 0 {
            ridx0[i as int]
        } else {
            ridx1[i as int]
        }),
{
    let leaf: usize = table.leaf_at(leaves, n_rows, i);
    let row: u32 = if leaves[leaf].side == 0 {
        ridx0[i as usize]
    } else {
        ridx1[i as usize]
    };
    (row, leaf)
}

/// Row `k` of lane `lane` of a reduction in blocks of `rows` rows and `lanes` lanes.
pub open spec fn lane_row(rows: int, lanes: int, lane: int, k: int) -> int {
    lane / lanes * rows + lane % lanes + k * lanes
}

/// The rows one lane adds up, in row order: those of its block that are congruent to it.
pub fn lane_rows(rows: u32, lanes: u32, lane: u32, n: u32) -> (list: Vec<u32>)
    requires
        0 < lanes,
        rows % lanes == 0,
        lane / lanes * rows + 2 * rows <= u32::MAX,
    ensures
        forall|k: int| 0 <= k < list.len() ==> #[trigger] list[k] == lane_row(rows as int, lanes as int, lane as int, k)
            && list[k] < n,
        list.len() <= rows / lanes,
        forall|k: int|
            list.len() <= k < rows / lanes ==> #[trigger] lane_row(rows as int, lanes as int, lane as int, k) >= n,
{
    let mut list: Vec<u32> = Vec::new();
    let per: u32 = rows / lanes;
    proof {
        vstd::arithmetic::div_mod::lemma_fundamental_div_mod(rows as int, lanes as int);
        assert(lanes * per == per * lanes) by (nonlinear_arith);
    }
    if rows == 0 {
        return list;
    }
    assert(lanes <= rows) by (nonlinear_arith)
        requires
            rows == per * lanes,
            rows > 0,
    ;
    let first: u32 = lane / lanes * rows + lane % lanes;
    let mut k: u32 = 0;
    while k < per
        invariant
            0 < lanes <= rows,
            rows == per * lanes,
            per == rows / lanes,
            first == lane / lanes * rows + lane % lanes,
            first < lane / lanes * rows + lanes,
            lane / lanes * rows + 2 * rows <= u32::MAX,
            k <= per,
            list.len() == k,
            forall|j: int|
                0 <= j < k ==> #[trigger] list[j] == lane_row(rows as int, lanes as int, lane as int, j) && list[j] < n,
        decreases per - k,
    {
        assert(k * lanes < per * lanes) by (nonlinear_arith)
            requires
                k < per,
                0 < lanes,
        ;
        let i: u32 = first + k * lanes;
        assert(i == lane_row(rows as int, lanes as int, lane as int, k as int));
        if i >= n {
            proof {
                assert forall|j: int| k <= j < per implies #[trigger] lane_row(rows as int, lanes as int, lane as int, j)
                    >= n by {
                    assert(k * lanes <= j * lanes) by (nonlinear_arith)
                        requires
                            k <= j,
                            0 < lanes,
                    ;
                }
            }
            return list;
        }
        list.push(i);
        k += 1;
    }
    list
}

/// Every row is in one lane: the one its block and its place in the block name.
pub proof fn lemma_lanes_cover(rows: int, lanes: int, i: int)
    requires
        0 < lanes,
        0 < rows,
        rows % lanes == 0,
        0 <= i,
    ensures
        ({
            let b = i / rows;
            let j = i % rows;
            lane_row(rows, lanes, b * lanes + j % lanes, j / lanes) == i && 0 <= j / lanes < rows / lanes
        }),
        forall|lane: int, k: int|
            0 <= lane && 0 <= k < rows / lanes && #[trigger] lane_row(rows, lanes, lane, k) == i ==> lane == i / rows * lanes
                + i % rows % lanes && k == i % rows / lanes,
{
    let b = i / rows;
    let j = i % rows;
    let q = j / lanes;
    let r = j % lanes;
    let per = rows / lanes;
    vstd::arithmetic::div_mod::lemma_fundamental_div_mod(i, rows);
    vstd::arithmetic::div_mod::lemma_fundamental_div_mod(j, lanes);
    vstd::arithmetic::div_mod::lemma_fundamental_div_mod(rows, lanes);
    vstd::arithmetic::div_mod::lemma_fundamental_div_mod_converse(b * lanes + r, lanes, b, r);
    assert(rows * b == b * rows && lanes * q == q * lanes && lanes * per == per * lanes) by (nonlinear_arith);
    assert(0 <= q < per) by (nonlinear_arith)
        requires
            j == q * lanes + r,
            0 <= r < lanes,
            0 <= j < rows,
            rows == per * lanes,
    ;
    assert forall|lane: int, k: int|
        0 <= lane && 0 <= k < rows / lanes && #[trigger] lane_row(rows, lanes, lane, k) == i implies lane == i / rows
        * lanes + i % rows % lanes && k == i % rows / lanes by {
        let lb = lane / lanes;
        let lr = lane % lanes;
        vstd::arithmetic::div_mod::lemma_fundamental_div_mod(lane, lanes);
        let within = lr + k * lanes;
        assert(0 <= within < rows) by (nonlinear_arith)
            requires
                0 <= lr < lanes,
                0 <= k,
                k + 1 <= per,
                rows == per * lanes,
                within == lr + k * lanes,
        ;
        vstd::arithmetic::div_mod::lemma_fundamental_div_mod_converse(i, rows, lb, within);
        vstd::arithmetic::div_mod::lemma_fundamental_div_mod_converse(within, lanes, k, lr);
        assert(lanes * lb == lb * lanes) by (nonlinear_arith);
    }
}

} // verus!
