//! The first position in a sequence where a predicate holds.
use vstd::prelude::*;

verus! {

/// `i` is the first index of `s` whose element satisfies `p`.
pub open spec fn is_first<A>(s: Seq<A>, p: spec_fn(A) -> bool, i: int) -> bool {
    &&& 0 <= i < s.len()
    &&& p(s[i])
    &&& forall|j: int| 0 <= j < i ==> !p(#[trigger] s[j])
}

/// The first index of `s` whose element satisfies `p`, if any.
pub open spec fn first_where<A>(s: Seq<A>, p: spec_fn(A) -> bool) -> Option<int> {
    if exists|i: int| is_first(s, p, i) {
        Some(choose|i: int| is_first(s, p, i))
    } else {
        None
    }
}

/// A scan that stops at `i` names the first match.
pub proof fn lemma_first_found<A>(s: Seq<A>, p: spec_fn(A) -> bool, i: int)
    requires
        is_first(s, p, i),
    ensures
        first_where(s, p) == Some(i),
{
    let k = choose|k: int| is_first(s, p, k);
    assert(is_first(s, p, k));
    if k < i {
        assert(!p(s[k]));
    }
    if i < k {
        assert(!p(s[i]));
    }
}

/// A scan that finds nothing means there is no match.
pub proof fn lemma_first_none<A>(s: Seq<A>, p: spec_fn(A) -> bool)
    requires
        forall|j: int| 0 <= j < s.len() ==> !p(#[trigger] s[j]),
    ensures
        first_where(s, p) is None,
{
    if exists|i: int| is_first(s, p, i) {
        let k = choose|k: int| is_first(s, p, k);
        assert(p(s[k]));
    }
}

/// Whatever `first_where` returns is a first match.
pub proof fn lemma_first_some<A>(s: Seq<A>, p: spec_fn(A) -> bool)
    requires
        first_where(s, p) is Some,
    ensures
        is_first(s, p, first_where(s, p)->0),
{
}

/// Predicates that agree position by position find the same first match.
pub proof fn lemma_first_where_same<A, B>(s: Seq<A>, p: spec_fn(A) -> bool, t: Seq<B>, q: spec_fn(B) -> bool)
    requires
        s.len() == t.len(),
        forall|i: int| 0 <= i < s.len() ==> p(#[trigger] s[i]) == q(t[i]),
    ensures
        first_where(s, p) == first_where(t, q),
{
    if first_where(s, p) is Some {
        let i = first_where(s, p)->0;
        lemma_first_some(s, p);
        assert forall|j: int| 0 <= j < i implies !q(#[trigger] t[j]) by {
            assert(!p(s[j]));
        }
        lemma_first_found(t, q, i);
    } else if first_where(t, q) is Some {
        let i = first_where(t, q)->0;
        lemma_first_some(t, q);
        assert forall|j: int| 0 <= j < i implies !p(#[trigger] s[j]) by {
            assert(!q(t[j]));
        }
        lemma_first_found(s, p, i);
    }
}

} // verus!
