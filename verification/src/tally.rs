//! Counting the elements of a sequence that satisfy a predicate.

use vstd::prelude::*;

verus! {

/// One if `b`, else zero.
pub open spec fn unit(b: bool) -> nat {
    if b {
        1
    } else {
        0
    }
}

/// How many elements of `s` satisfy `p`.
pub open spec fn tally<X>(s: Seq<X>, p: spec_fn(X) -> bool) -> nat
    decreases s.len(),
{
    if s.len() == 0 {
        0
    } else {
        tally(s.drop_last(), p) + unit(p(s.last()))
    }
}

/// One more element counts if it satisfies the predicate.
pub proof fn lemma_tally_push<X>(s: Seq<X>, x: X, p: spec_fn(X) -> bool)
    ensures
        tally(s.push(x), p) == tally(s, p) + unit(p(x)),
{
    assert(s.push(x).drop_last() == s);
}

/// An element that takes another's place counts in its stead.
pub proof fn lemma_tally_update<X>(s: Seq<X>, i: int, x: X, p: spec_fn(X) -> bool)
    requires
        0 <= i < s.len(),
    ensures
        tally(s.update(i, x), p) == tally(s, p) + unit(p(x)) - unit(p(s[i])),
    decreases s.len(),
{
    if i == s.len() - 1 {
        assert(s.update(i, x).drop_last() == s.drop_last());
    } else {
        lemma_tally_update(s.drop_last(), i, x, p);
        assert(s.update(i, x).drop_last() == s.drop_last().update(i, x));
    }
}

/// An element that satisfies the predicate is counted.
pub proof fn lemma_tally_member<X>(s: Seq<X>, i: int, p: spec_fn(X) -> bool)
    requires
        0 <= i < s.len(),
    ensures
        tally(s, p) >= unit(p(s[i])),
    decreases s.len(),
{
    if i < s.len() - 1 {
        lemma_tally_member(s.drop_last(), i, p);
    }
}

/// Two elements that satisfy the predicate are both counted.
pub proof fn lemma_tally_members<X>(s: Seq<X>, i: int, j: int, p: spec_fn(X) -> bool)
    requires
        0 <= i < j < s.len(),
    ensures
        tally(s, p) >= unit(p(s[i])) + unit(p(s[j])),
    decreases s.len(),
{
    if j < s.len() - 1 {
        lemma_tally_members(s.drop_last(), i, j, p);
    } else {
        lemma_tally_member(s.drop_last(), i, p);
    }
}

/// What is counted is there.
pub proof fn lemma_tally_witness<X>(s: Seq<X>, p: spec_fn(X) -> bool) -> (i: int)
    requires
        tally(s, p) > 0,
    ensures
        0 <= i < s.len(),
        p(s[i]),
    decreases s.len(),
{
    if p(s.last()) {
        s.len() - 1
    } else {
        lemma_tally_witness(s.drop_last(), p)
    }
}

/// Where no element satisfies the predicate, nothing is counted.
pub proof fn lemma_tally_none<X>(s: Seq<X>, p: spec_fn(X) -> bool)
    requires
        forall|i: int| 0 <= i < s.len() ==> !p(#[trigger] s[i]),
    ensures
        tally(s, p) == 0,
    decreases s.len(),
{
    if s.len() > 0 {
        assert(!p(s[s.len() - 1]));
        assert forall|i: int| 0 <= i < s.drop_last().len() implies !p(
            #[trigger] s.drop_last()[i],
        ) by {
            assert(!p(s[i]));
        }
        lemma_tally_none(s.drop_last(), p);
    }
}

/// A predicate that implies another is satisfied by no more elements.
pub proof fn lemma_tally_implies<X>(s: Seq<X>, p: spec_fn(X) -> bool, q: spec_fn(X) -> bool)
    requires
        forall|x: X| #[trigger] p(x) ==> q(x),
    ensures
        tally(s, p) <= tally(s, q),
    decreases s.len(),
{
    if s.len() > 0 {
        lemma_tally_implies(s.drop_last(), p, q);
        assert(p(s.last()) ==> q(s.last()));
    }
}

} // verus!
