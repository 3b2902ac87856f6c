//! Segments of the row index, and how often they cover a position.

use vstd::prelude::*;

verus! {

/// Where a segment begins, and how many positions it has.
pub type Segment = (u32, u32);

/// Position `i` lies in the segment.
pub open spec fn lies_in(seg: Segment, i: int) -> bool {
    seg.0 <= i < seg.0 + seg.1
}

/// How many of the segments position `i` lies in.
pub open spec fn owners(segs: Seq<Segment>, i: int) -> int
    decreases segs.len(),
{
    if segs.len() == 0 {
        0
    } else {
        owners(segs.drop_last(), i) + (if lies_in(segs.last(), i) {
            1int
        } else {
            0
        })
    }
}

/// Every segment ends within the first `n` positions.
pub open spec fn within(segs: Seq<Segment>, n: int) -> bool {
    forall|k: int| 0 <= k < segs.len() ==> (#[trigger] segs[k]).0 + segs[k].1 <= n
}

/// The segments divide the first `n` positions among themselves: each lies in one of them.
pub open spec fn tile(segs: Seq<Segment>, n: int) -> bool {
    &&& within(segs, n)
    &&& forall|i: int| 0 <= i < n ==> #[trigger] owners(segs, i) == 1
}

pub proof fn lemma_owners_push(segs: Seq<Segment>, seg: Segment, i: int)
    ensures
        owners(segs.push(seg), i) == owners(segs, i) + (if lies_in(seg, i) {
            1int
        } else {
            0
        }),
{
    assert(segs.push(seg).drop_last() =~= segs);
}

pub proof fn lemma_owners_concat(a: Seq<Segment>, b: Seq<Segment>, i: int)
    ensures
        owners(a + b, i) == owners(a, i) + owners(b, i),
    decreases b.len(),
{
    if b.len() == 0 {
        assert(a + b =~= a);
    } else {
        assert((a + b).drop_last() =~= a + b.drop_last());
        lemma_owners_concat(a, b.drop_last(), i);
    }
}

/// A position is covered at least as often as there are chosen segments that it lies in.
pub proof fn lemma_owners_at_least(segs: Seq<Segment>, i: int)
    ensures
        owners(segs, i) >= 0,
        forall|k: int| 0 <= k < segs.len() && lies_in(#[trigger] segs[k], i) ==> owners(segs, i) >= 1,
        forall|j: int, k: int|
            0 <= j < k < segs.len() && lies_in(#[trigger] segs[j], i) && lies_in(#[trigger] segs[k], i) ==> owners(
                segs,
                i,
            ) >= 2,
    decreases segs.len(),
{
    if segs.len() > 0 {
        let rest = segs.drop_last();
        lemma_owners_at_least(rest, i);
        assert forall|k: int| 0 <= k < segs.len() && lies_in(#[trigger] segs[k], i) implies owners(segs, i) >= 1 by {
            if k < rest.len() {
                assert(rest[k] == segs[k]);
            }
        }
        assert forall|j: int, k: int|
            0 <= j < k < segs.len() && lies_in(#[trigger] segs[j], i) && lies_in(#[trigger] segs[k], i) implies owners(
            segs,
            i,
        ) >= 2 by {
            assert(rest[j] == segs[j]);
            if k < rest.len() {
                assert(rest[k] == segs[k]);
            }
        }
    }
}

/// A position that is covered lies in one of the segments.
pub proof fn lemma_owner_exists(segs: Seq<Segment>, i: int)
    requires
        owners(segs, i) > 0,
    ensures
        exists|k: int| 0 <= k < segs.len() && lies_in(#[trigger] segs[k], i),
    decreases segs.len(),
{
    if segs.len() > 0 {
        if lies_in(segs.last(), i) {
            assert(lies_in(segs[segs.len() - 1], i));
        } else {
            lemma_owner_exists(segs.drop_last(), i);
            let k = choose|k: int| 0 <= k < segs.drop_last().len() && lies_in(#[trigger] segs.drop_last()[k], i);
            assert(lies_in(segs[k], i));
        }
    }
}

/// How often the first `n` positions are covered, all told.
spec fn covered(segs: Seq<Segment>, n: int) -> int
    decreases n,
{
    if n <= 0 {
        0
    } else {
        covered(segs, n - 1) + owners(segs, n - 1)
    }
}

/// How many positions the segments have together.
pub open spec fn total_len(segs: Seq<Segment>) -> int
    decreases segs.len(),
{
    if segs.len() == 0 {
        0
    } else {
        total_len(segs.drop_last()) + segs.last().1
    }
}

/// How many of the first `n` positions lie in the segment.
spec fn inside(seg: Segment, n: int) -> int {
    if n <= seg.0 {
        0
    } else if n <= seg.0 + seg.1 {
        n - seg.0
    } else {
        seg.1 as int
    }
}

proof fn lemma_covered_last(segs: Seq<Segment>, n: int)
    requires
        segs.len() > 0,
        0 <= n,
    ensures
        covered(segs, n) == covered(segs.drop_last(), n) + inside(segs.last(), n),
    decreases n,
{
    if n > 0 {
        lemma_covered_last(segs, n - 1);
    }
}

proof fn lemma_covered_total(segs: Seq<Segment>, n: int)
    requires
        within(segs, n),
        0 <= n,
    ensures
        covered(segs, n) == total_len(segs),
    decreases segs.len(),
{
    if segs.len() > 0 {
        let rest = segs.drop_last();
        assert forall|k: int| 0 <= k < rest.len() implies (#[trigger] rest[k]).0 + rest[k].1 <= n by {
            assert(rest[k] == segs[k]);
        }
        assert(segs[segs.len() - 1].0 + segs[segs.len() - 1].1 <= n);
        lemma_covered_total(rest, n);
        lemma_covered_last(segs, n);
    } else {
        lemma_covered_none(segs, n);
    }
}

proof fn lemma_covered_none(segs: Seq<Segment>, n: int)
    requires
        segs.len() == 0,
    ensures
        covered(segs, n) == 0,
    decreases n,
{
    if n > 0 {
        lemma_covered_none(segs, n - 1);
    }
}

proof fn lemma_covered_once(segs: Seq<Segment>, n: int)
    requires
        0 <= n,
        forall|i: int| 0 <= i < n ==> #[trigger] owners(segs, i) <= 1,
    ensures
        covered(segs, n) <= n,
    decreases n,
{
    if n > 0 {
        lemma_covered_once(segs, n - 1);
        assert(owners(segs, n - 1) <= 1);
    }
}

/// Segments that cover no position twice are no longer together than what they lie in.
pub proof fn lemma_total_len(segs: Seq<Segment>, n: int)
    requires
        0 <= n,
        within(segs, n),
        forall|i: int| 0 <= i < n ==> #[trigger] owners(segs, i) <= 1,
    ensures
        total_len(segs) <= n,
{
    lemma_covered_total(segs, n);
    lemma_covered_once(segs, n);
}

} // verus!
