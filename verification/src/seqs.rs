//! Sequences split by a predicate.

use vstd::prelude::*;

verus! {

/// Filtering one element more.
pub proof fn lemma_filter_push<A>(s: Seq<A>, x: A, p: spec_fn(A) -> bool)
    ensures
        s.push(x).filter(p) == (if p(x) {
            s.filter(p).push(x)
        } else {
            s.filter(p)
        }),
{
    reveal(Seq::filter);
    assert(s.push(x).drop_last() =~= s);
}

/// Filtering the empty sequence.
pub proof fn lemma_filter_empty<A>(p: spec_fn(A) -> bool)
    ensures
        Seq::<A>::empty().filter(p) == Seq::<A>::empty(),
{
    reveal(Seq::filter);
}

/// A prefix filtered is a shorter prefix filtered, then what lies between.
pub proof fn lemma_filter_prefix<A>(s: Seq<A>, a: int, b: int, p: spec_fn(A) -> bool)
    requires
        0 <= a <= b <= s.len(),
    ensures
        s.subrange(0, b).filter(p) == s.subrange(0, a).filter(p) + s.subrange(a, b).filter(p),
{
    assert(s.subrange(0, b) =~= s.subrange(0, a) + s.subrange(a, b));
    Seq::filter_distributes_over_add(s.subrange(0, a), s.subrange(a, b), p);
}

/// A predicate and its opposite share a sequence between them.
pub proof fn lemma_filter_counts<A>(s: Seq<A>, p: spec_fn(A) -> bool, q: spec_fn(A) -> bool)
    requires
        forall|x: A| #[trigger] q(x) == !p(x),
    ensures
        s.filter(p).len() + s.filter(q).len() == s.len(),
    decreases s.len(),
{
    reveal(Seq::filter);
    if s.len() > 0 {
        lemma_filter_counts(s.drop_last(), p, q);
        assert(q(s.last()) == !p(s.last()));
    }
}

/// Splitting by a predicate rearranges a sequence.
pub proof fn lemma_filter_rearranges<A>(s: Seq<A>, p: spec_fn(A) -> bool, q: spec_fn(A) -> bool)
    requires
        forall|x: A| #[trigger] q(x) == !p(x),
    ensures
        (s.filter(p) + s.filter(q)).to_multiset() == s.to_multiset(),
    decreases s.len(),
{
    broadcast use vstd::seq_lib::group_to_multiset_ensures;

    reveal(Seq::filter);
    vstd::seq_lib::lemma_multiset_commutative(s.filter(p), s.filter(q));
    if s.len() > 0 {
        let rest = s.drop_last();
        lemma_filter_rearranges(rest, p, q);
        vstd::seq_lib::lemma_multiset_commutative(rest.filter(p), rest.filter(q));
        assert(q(s.last()) == !p(s.last()));
        assert(s =~= rest.push(s.last()));
        assert(s.to_multiset() =~= (s.filter(p) + s.filter(q)).to_multiset());
    } else {
        assert(s.filter(p) + s.filter(q) =~= s);
    }
}

} // verus!
