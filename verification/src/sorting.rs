//! Stable sorting by a string key in `localeCompare` order.
use crate::js::{collate_spec, law_collate_antisymmetric, locale_compare};
use crate::seqs::{first_where, is_first, lemma_first_found, lemma_first_none};
use std::cmp::Ordering;
use vstd::prelude::*;

verus! {

/// A value sorted by a string key.
pub trait Keyed {
    spec fn key_view(&self) -> Seq<char>;

    fn key(&self) -> (r: &str)
        ensures
            r@ == self.key_view(),
    ;
}

impl Keyed for String {
    open spec fn key_view(&self) -> Seq<char> {
        self@
    }

    fn key(&self) -> (r: &str) {
        self.as_str()
    }
}

/// `a` sorts after `b`.
pub open spec fn after<T: Keyed>(a: T, b: T) -> bool {
    collate_spec(a.key_view(), b.key_view(), false) == Ordering::Greater
}

/// Where `x` goes in `s`: before the first element that sorts after it.
pub open spec fn slot_for<T: Keyed>(s: Seq<T>, x: T) -> int {
    match first_where(s, |y: T| after(y, x)) {
        Some(i) => i,
        None => s.len() as int,
    }
}

/// Insertion of each element in turn, after every element it does not
/// sort before: the stable sort.
pub open spec fn sorted_by_key<T: Keyed>(s: Seq<T>) -> Seq<T>
    decreases s.len(),
{
    if s.len() == 0 {
        s
    } else {
        let rest = sorted_by_key(s.drop_last());
        rest.insert(slot_for(rest, s.last()), s.last())
    }
}

/// No element sorts after the one that follows it.
pub open spec fn in_order<T: Keyed>(s: Seq<T>) -> bool {
    forall|i: int| 0 <= i < s.len() - 1 ==> !after(#[trigger] s[i], s[i + 1])
}

proof fn lemma_insert_in_order<T: Keyed>(s: Seq<T>, x: T)
    requires
        in_order(s),
    ensures
        in_order(s.insert(slot_for(s, x), x)),
        0 <= slot_for(s, x) <= s.len(),
{
    let p = slot_for(s, x);
    let t = s.insert(p, x);
    match first_where(s, |y: T| after(y, x)) {
        Some(i) => {
            crate::seqs::lemma_first_some(s, |y: T| after(y, x));
        },
        None => {
            assert forall|j: int| 0 <= j < s.len() implies !after(#[trigger] s[j], x) by {
                if after(s[j], x) {
                    lemma_some_first(s, |y: T| after(y, x), j);
                }
            }
        },
    }
    assert forall|i: int| 0 <= i < t.len() - 1 implies !after(#[trigger] t[i], t[i + 1]) by {
        if i + 1 < p {
            assert(t[i] == s[i] && t[i + 1] == s[i + 1]);
        } else if i + 1 == p {
            assert(t[i] == s[i] && t[i + 1] == x);
        } else if i == p {
            assert(t[i] == x && t[i + 1] == s[p]);
            law_collate_antisymmetric(s[p].key_view(), x.key_view(), false);
        } else {
            assert(t[i] == s[i - 1] && t[i + 1] == s[i]);
        }
    }
}

/// Some element satisfies `p`, so a first one does.
proof fn lemma_some_first<T>(s: Seq<T>, p: spec_fn(T) -> bool, j: int)
    requires
        0 <= j < s.len(),
        p(s[j]),
    ensures
        exists|k: int| is_first(s, p, k),
    decreases j,
{
    if exists|k: int| 0 <= k < j && p(s[k]) {
        let k = choose|k: int| 0 <= k < j && p(s[k]);
        lemma_some_first(s, p, k);
    } else {
        assert(is_first(s, p, j));
    }
}

/// The stable sort leaves no element after one it sorts before.
pub proof fn law_sorted_in_order<T: Keyed>(s: Seq<T>)
    ensures
        in_order(sorted_by_key(s)),
        sorted_by_key(s).len() == s.len(),
    decreases s.len(),
{
    if s.len() > 0 {
        law_sorted_in_order(s.drop_last());
        lemma_insert_in_order(sorted_by_key(s.drop_last()), s.last());
    }
}

/// The stable sort only reorders: it keeps each element as often as it was.
pub proof fn lemma_sorted_permutes<T: Keyed>(s: Seq<T>)
    ensures
        sorted_by_key(s).to_multiset() == s.to_multiset(),
    decreases s.len(),
{
    if s.len() > 0 {
        lemma_sorted_permutes(s.drop_last());
        let rest = sorted_by_key(s.drop_last());
        law_sorted_in_order(s.drop_last());
        lemma_insert_in_order(rest, s.last());
        vstd::seq_lib::to_multiset_insert(rest, slot_for(rest, s.last()), s.last());
        vstd::seq_lib::to_multiset_build(s.drop_last(), s.last());
        assert(s.drop_last().push(s.last()) =~= s);
    }
}

/// An element of the sorted sequence was an element of the input, and back.
pub proof fn lemma_sorted_contains<T: Keyed>(s: Seq<T>, x: T)
    ensures
        sorted_by_key(s).contains(x) == s.contains(x),
{
    lemma_sorted_permutes(s);
    vstd::seq_lib::to_multiset_contains(s, x);
    vstd::seq_lib::to_multiset_contains(sorted_by_key(s), x);
}

/// Sequences whose keys agree position by position sort to sequences whose
/// keys agree position by position.
pub proof fn lemma_sorted_same_keys<T: Keyed, U: Keyed>(a: Seq<T>, b: Seq<U>)
    requires
        a.len() == b.len(),
        forall|i: int| 0 <= i < a.len() ==> (#[trigger] a[i]).key_view() == b[i].key_view(),
    ensures
        sorted_by_key(a).len() == a.len(),
        sorted_by_key(b).len() == a.len(),
        forall|i: int|
            0 <= i < a.len() ==> (#[trigger] sorted_by_key(a)[i]).key_view() == sorted_by_key(b)[i].key_view(),
    decreases a.len(),
{
    law_sorted_in_order(a);
    law_sorted_in_order(b);
    if a.len() > 0 {
        let a0 = a.drop_last();
        let b0 = b.drop_last();
        assert forall|i: int| 0 <= i < a0.len() implies (#[trigger] a0[i]).key_view() == b0[i].key_view() by {
            assert(a0[i] == a[i]);
            assert(b0[i] == b[i]);
        }
        lemma_sorted_same_keys(a0, b0);
        let ra = sorted_by_key(a0);
        let rb = sorted_by_key(b0);
        let x = a.last();
        let y = b.last();
        assert(x.key_view() == y.key_view());
        crate::seqs::lemma_first_where_same(ra, |z: T| after(z, x), rb, |z: U| after(z, y));
        law_sorted_in_order(a0);
        law_sorted_in_order(b0);
        lemma_insert_in_order(ra, x);
        lemma_insert_in_order(rb, y);
        let p = slot_for(ra, x);
        assert(p == slot_for(rb, y));
        assert forall|i: int| 0 <= i < a.len() implies (#[trigger] sorted_by_key(a)[i]).key_view()
            == sorted_by_key(b)[i].key_view() by {
            if i < p {
                assert(sorted_by_key(a)[i] == ra[i]);
                assert(sorted_by_key(b)[i] == rb[i]);
            } else if i > p {
                assert(sorted_by_key(a)[i] == ra[i - 1]);
                assert(sorted_by_key(b)[i] == rb[i - 1]);
            }
        }
    }
}

proof fn lemma_slot_here<T: Keyed>(out: Seq<T>, x: T, j: usize)
    requires
        j < out.len(),
        after(out[j as int], x),
        forall|k: int| 0 <= k < j ==> !after(#[trigger] out[k], x),
    ensures
        slot_for(out, x) == j as int,
{
    lemma_first_found(out, |y: T| after(y, x), j as int);
}

proof fn lemma_slot_end<T: Keyed>(out: Seq<T>, x: T)
    requires
        forall|k: int| 0 <= k < out.len() ==> !after(#[trigger] out[k], x),
    ensures
        slot_for(out, x) == out.len(),
{
    lemma_first_none(out, |y: T| after(y, x));
}

/// Where `x` goes in `out`.
fn slot<T: Keyed>(out: &Vec<T>, x: &T) -> (j: usize)
    ensures
        j == slot_for(out@, *x),
{
    let mut j: usize = 0;
    while j < out.len()
        invariant
            j <= out@.len(),
            forall|k: int| 0 <= k < j ==> !after(#[trigger] out@[k], *x),
        decreases out@.len() - j,
    {
        let o = locale_compare(out[j].key(), x.key());
        match o {
            Ordering::Greater => {
                proof {
                    lemma_slot_here(out@, *x, j);
                }
                return j;
            },
            _ => {},
        }
        j += 1;
    }
    proof {
        lemma_slot_end(out@, *x);
    }
    j
}

/// Sorts `v` stably by key in `localeCompare` order.
pub fn sort_by_key<T: Keyed>(v: Vec<T>) -> (r: Vec<T>)
    ensures
        r@ == sorted_by_key(v@),
{
    let ghost orig = v@;
    let mut v = v;
    let mut out: Vec<T> = Vec::new();
    let n = v.len();
    let mut i: usize = 0;
    while i < n
        invariant
            n == orig.len(),
            i <= n,
            v@ == orig.skip(i as int),
            out@ == sorted_by_key(orig.take(i as int)),
        decreases n - i,
    {
        let x = v.remove(0);
        assert(x == orig[i as int]);
        let j = slot(&out, &x);
        proof {
            assert(orig.take(i + 1).drop_last() =~= orig.take(i as int));
            assert(orig.take(i + 1).last() == x);
            assert(orig.skip(i + 1) =~= orig.skip(i as int).drop_first());
        }
        out.insert(j, x);
        i += 1;
    }
    proof {
        assert(orig.take(n as int) =~= orig);
    }
    out
}

} // verus!
