//! Sorting the rows of a result grid by one column: a stable sort of row
//! numbers by cell text, numbers within text compared by value, empty cells
//! last going up and first going down.
use crate::js::{collate_spec, law_collate_antisymmetric, locale_compare_numeric, reverse};
use crate::seqs::{first_where, lemma_first_found, lemma_first_none, lemma_first_some};
use std::cmp::Ordering;
use vstd::prelude::*;

verus! {

/// The text of a cell, if it has any.
pub open spec fn cell_view(c: Option<String>) -> Option<Seq<char>> {
    match c {
        Some(s) => Some(s@),
        None => None,
    }
}

/// How two cells order: by `localeCompare` with numeric parts compared by
/// value, reversed going down; an empty cell after any text going up and
/// before it going down.
pub open spec fn cell_order(a: Option<Seq<char>>, b: Option<Seq<char>>, ascending: bool) -> Ordering {
    match (a, b) {
        (None, None) => Ordering::Equal,
        (None, _) => if ascending {
            Ordering::Greater
        } else {
            Ordering::Less
        },
        (_, None) => if ascending {
            Ordering::Less
        } else {
            Ordering::Greater
        },
        (Some(x), Some(y)) => {
            let o = collate_spec(x, y, true);
            if ascending {
                o
            } else {
                reverse(o)
            }
        },
    }
}

/// The text in the sorted column of row `a`.
pub open spec fn key_at(keys: Seq<Option<String>>, a: usize) -> Option<Seq<char>> {
    cell_view(keys[a as int])
}

/// Row `a` sorts after row `b`.
pub open spec fn row_after(keys: Seq<Option<String>>, ascending: bool, a: usize, b: usize) -> bool {
    cell_order(key_at(keys, a), key_at(keys, b), ascending) == Ordering::Greater
}

/// Where row `x` goes in `s`: before the first row that sorts after it.
pub open spec fn row_slot(keys: Seq<Option<String>>, ascending: bool, s: Seq<usize>, x: usize) -> int {
    match first_where(s, |y: usize| row_after(keys, ascending, y, x)) {
        Some(i) => i,
        None => s.len() as int,
    }
}

/// The rows of `s` stably sorted: each inserted in turn after every row it
/// does not sort before.
pub open spec fn sorted_rows(keys: Seq<Option<String>>, ascending: bool, s: Seq<usize>) -> Seq<usize>
    decreases s.len(),
{
    if s.len() == 0 {
        s
    } else {
        let rest = sorted_rows(keys, ascending, s.drop_last());
        rest.insert(row_slot(keys, ascending, rest, s.last()), s.last())
    }
}

/// The row numbers `0..n`.
pub open spec fn all_rows(n: nat) -> Seq<usize> {
    Seq::new(n, |i: int| i as usize)
}

/// No row sorts after the one that follows it.
pub open spec fn rows_in_order(keys: Seq<Option<String>>, ascending: bool, s: Seq<usize>) -> bool {
    forall|i: int| 0 <= i < s.len() - 1 ==> !row_after(keys, ascending, #[trigger] s[i], s[i + 1])
}

proof fn lemma_row_after_antisymmetric(keys: Seq<Option<String>>, ascending: bool, a: usize, b: usize)
    ensures
        row_after(keys, ascending, a, b) ==> !row_after(keys, ascending, b, a),
{
    let x = key_at(keys, a);
    let y = key_at(keys, b);
    if x is Some && y is Some {
        law_collate_antisymmetric(x->0, y->0, true);
    }
}

proof fn lemma_some_row_first(s: Seq<usize>, p: spec_fn(usize) -> bool, j: int)
    requires
        0 <= j < s.len(),
        p(s[j]),
    ensures
        first_where(s, p) is Some,
    decreases j,
{
    if exists|k: int| 0 <= k < j && p(s[k]) {
        let k = choose|k: int| 0 <= k < j && p(s[k]);
        lemma_some_row_first(s, p, k);
    } else {
        lemma_first_found(s, p, j);
    }
}

proof fn lemma_insert_row_in_order(keys: Seq<Option<String>>, ascending: bool, s: Seq<usize>, x: usize)
    requires
        rows_in_order(keys, ascending, s),
    ensures
        rows_in_order(keys, ascending, s.insert(row_slot(keys, ascending, s, x), x)),
        0 <= row_slot(keys, ascending, s, x) <= s.len(),
{
    let p = row_slot(keys, ascending, s, x);
    let t = s.insert(p, x);
    let pred = |y: usize| row_after(keys, ascending, y, x);
    match first_where(s, pred) {
        Some(i) => {
            lemma_first_some(s, pred);
        },
        None => {
            assert forall|j: int| 0 <= j < s.len() implies !row_after(keys, ascending, #[trigger] s[j], x) by {
                if row_after(keys, ascending, s[j], x) {
                    lemma_some_row_first(s, pred, j);
                }
            }
        },
    }
    assert forall|i: int| 0 <= i < t.len() - 1 implies !row_after(keys, ascending, #[trigger] t[i], t[i + 1]) by {
        if i + 1 < p {
            assert(t[i] == s[i] && t[i + 1] == s[i + 1]);
        } else if i + 1 == p {
            assert(t[i] == s[i] && t[i + 1] == x);
        } else if i == p {
            assert(t[i] == x && t[i + 1] == s[p]);
            lemma_row_after_antisymmetric(keys, ascending, s[p], x);
        } else {
            assert(t[i] == s[i - 1] && t[i + 1] == s[i]);
        }
    }
}

/// The sorted rows are in order, each row once as often as before.
pub proof fn law_rows_sorted(keys: Seq<Option<String>>, ascending: bool, s: Seq<usize>)
    ensures
        rows_in_order(keys, ascending, sorted_rows(keys, ascending, s)),
        sorted_rows(keys, ascending, s).to_multiset() == s.to_multiset(),
        sorted_rows(keys, ascending, s).len() == s.len(),
    decreases s.len(),
{
    if s.len() > 0 {
        law_rows_sorted(keys, ascending, s.drop_last());
        let rest = sorted_rows(keys, ascending, s.drop_last());
        lemma_insert_row_in_order(keys, ascending, rest, s.last());
        vstd::seq_lib::to_multiset_insert(rest, row_slot(keys, ascending, rest, s.last()), s.last());
        vstd::seq_lib::to_multiset_build(s.drop_last(), s.last());
        assert(s.drop_last().push(s.last()) =~= s);
    }
}

fn cell_cmp(a: &Option<String>, b: &Option<String>, ascending: bool) -> (r: Ordering)
    ensures
        r == cell_order(cell_view(*a), cell_view(*b), ascending),
{
    match (a, b) {
        (None, None) => Ordering::Equal,
        (None, _) => if ascending {
            Ordering::Greater
        } else {
            Ordering::Less
        },
        (_, None) => if ascending {
            Ordering::Less
        } else {
            Ordering::Greater
        },
        (Some(x), Some(y)) => {
            let o = locale_compare_numeric(x.as_str(), y.as_str());
            if ascending {
                o
            } else {
                match o {
                    Ordering::Less => Ordering::Greater,
                    Ordering::Equal => Ordering::Equal,
                    Ordering::Greater => Ordering::Less,
                }
            }
        },
    }
}

/// Row `a` sorts after row `b`.
fn sorts_after(keys: &Vec<Option<String>>, ascending: bool, a: usize, b: usize) -> (r: bool)
    requires
        a < keys@.len(),
        b < keys@.len(),
    ensures
        r == row_after(keys@, ascending, a, b),
{
    match cell_cmp(&keys[a], &keys[b], ascending) {
        Ordering::Greater => true,
        _ => false,
    }
}

/// Where row `x` goes in the rows sorted so far.
fn find_slot(keys: &Vec<Option<String>>, ascending: bool, out: &Vec<usize>, x: usize) -> (j: usize)
    requires
        x < keys@.len(),
        forall|k: int| 0 <= k < out@.len() ==> #[trigger] out@[k] < keys@.len(),
    ensures
        j == row_slot(keys@, ascending, out@, x),
        j <= out@.len(),
{
    let ghost pred = |y: usize| row_after(keys@, ascending, y, x);
    let mut j: usize = 0;
    while j < out.len()
        invariant
            x < keys@.len(),
            forall|k: int| 0 <= k < out@.len() ==> #[trigger] out@[k] < keys@.len(),
            pred == (|y: usize| row_after(keys@, ascending, y, x)),
            j <= out@.len(),
            forall|k: int| 0 <= k < j ==> !pred(#[trigger] out@[k]),
        decreases out@.len() - j,
    {
        if sorts_after(keys, ascending, out[j], x) {
            proof {
                lemma_first_found(out@, pred, j as int);
            }
            return j;
        }
        j += 1;
    }
    proof {
        lemma_first_none(out@, pred);
    }
    j
}

/// The order in which to show the rows of a grid sorted by one column,
/// given each row's cell text in that column (`None` for an empty cell):
/// the row numbers stably sorted.
pub fn sort_index(keys: &Vec<Option<String>>, ascending: bool) -> (r: Vec<usize>)
    ensures
        r@ == sorted_rows(keys@, ascending, all_rows(keys@.len())),
{
    let n = keys.len();
    let ghost all = all_rows(n as nat);
    let mut out: Vec<usize> = Vec::new();
    let mut i: usize = 0;
    while i < n
        invariant
            n == keys@.len(),
            all == all_rows(n as nat),
            i <= n,
            out@ == sorted_rows(keys@, ascending, all.take(i as int)),
            forall|k: int| 0 <= k < out@.len() ==> #[trigger] out@[k] < n,
        decreases n - i,
    {
        proof {
            assert(all.take(i + 1).drop_last() =~= all.take(i as int));
            assert(all.take(i + 1).last() == i);
        }
        let j = find_slot(keys, ascending, &out, i);
        let ghost before = out@;
        out.insert(j, i);
        proof {
            assert forall|k: int| 0 <= k < out@.len() implies #[trigger] out@[k] < n by {
                if k < j {
                    assert(out@[k] == before[k]);
                } else if k > j {
                    assert(out@[k] == before[k - 1]);
                }
            }
        }
        i += 1;
    }
    proof {
        assert(all.take(n as int) =~= all);
    }
    out
}

} // verus!
