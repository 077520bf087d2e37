//! The default layout of the relationship diagram: the connected groups of
//! boxes side by side, each group in layers from the referenced tables to the
//! tables that reference them.
use crate::bytes::str_eq;
use crate::relationship::{contains_id, copy_strings, has_id, push_id, DiagramGraph, DiagramTable};
use crate::seqs::{first_where, lemma_first_found, lemma_first_none, lemma_first_some};
use crate::sorting::{
    in_order, law_sorted_in_order, lemma_sorted_contains, lemma_sorted_same_keys, sort_by_key, sorted_by_key,
    Keyed,
};
use vstd::prelude::*;

verus! {

impl Keyed for Vec<String> {
    open spec fn key_view(&self) -> Seq<char> {
        if self@.len() > 0 {
            self@[0]@
        } else {
            Seq::empty()
        }
    }

    fn key(&self) -> (r: &str) {
        if self.len() > 0 {
            self[0].as_str()
        } else {
            proof {
                reveal_strlit("");
            }
            ""
        }
    }
}

// ─── Reachability ──────────────────────────────────────────────────────────

/// An entry of an adjacency list for `x`.
pub open spec fn entry_for(x: Seq<char>) -> spec_fn((String, Vec<String>)) -> bool {
    |e: (String, Vec<String>)| e.0@ == x
}

/// The list an adjacency list gives `x`: that of its first entry for `x`,
/// else none.
pub open spec fn neighbours(adj: Seq<(String, Vec<String>)>, x: Seq<char>) -> Seq<String> {
    match first_where(adj, entry_for(x)) {
        Some(i) => adj[i].1@,
        None => Seq::empty(),
    }
}

/// `y` is listed next to `x`.
pub open spec fn adjacent(adj: Seq<(String, Vec<String>)>, x: Seq<char>, y: Seq<char>) -> bool {
    has_id(neighbours(adj, x), y)
}

/// The relation an adjacency list draws: `y` is listed next to `x`.
pub open spec fn adj_rel(adj: Seq<(String, Vec<String>)>) -> spec_fn(Seq<char>, Seq<char>) -> bool {
    |x: Seq<char>, y: Seq<char>| adjacent(adj, x, y)
}

/// A walk along `rel` that never enters `seen`.
pub open spec fn walk(rel: spec_fn(Seq<char>, Seq<char>) -> bool, seen: Set<Seq<char>>, p: Seq<Seq<char>>) -> bool {
    &&& p.len() >= 1
    &&& forall|k: int| 0 <= k < p.len() ==> !seen.contains(#[trigger] p[k])
    &&& forall|k: int| 0 <= k < p.len() - 1 ==> rel(#[trigger] p[k], p[k + 1])
}

/// The ids a walk from `s` that avoids `seen` can reach.
pub open spec fn reach(rel: spec_fn(Seq<char>, Seq<char>) -> bool, seen: Set<Seq<char>>, s: Seq<char>) -> Set<
    Seq<char>,
> {
    Set::new(|y: Seq<char>| exists|p: Seq<Seq<char>>| #[trigger] walk(rel, seen, p) && p[0] == s && p.last() == y)
}

/// The groups found by taking the ids of `order` in turn, each not yet in a
/// group starting a new one of all it reaches; with the ids grouped so far.
pub open spec fn groups_state(order: Seq<Seq<char>>, rel: spec_fn(Seq<char>, Seq<char>) -> bool) -> (
    Seq<Set<Seq<char>>>,
    Set<Seq<char>>,
)
    decreases order.len(),
{
    if order.len() == 0 {
        (Seq::empty(), Set::empty())
    } else {
        let (groups, seen) = groups_state(order.drop_last(), rel);
        let s = order.last();
        if seen.contains(s) {
            (groups, seen)
        } else {
            let g = reach(rel, seen, s);
            (groups.push(g), seen.union(g))
        }
    }
}

/// The views of a list of strings.
pub open spec fn views(s: Seq<String>) -> Seq<Seq<char>> {
    s.map_values(|x: String| x@)
}

/// The connected groups of a set of table ids: started from the ids in
/// `localeCompare` order.
pub open spec fn components_spec(table_ids: Seq<String>, rel: spec_fn(Seq<char>, Seq<char>) -> bool) -> Seq<
    Set<Seq<char>>,
> {
    groups_state(views(sorted_by_key(table_ids)), rel).0
}

/// The ids a list holds.
pub open spec fn id_set(v: Seq<String>) -> Set<Seq<char>> {
    Set::new(|x: Seq<char>| has_id(v, x))
}

/// `v` lists the ids of the finite set `c`, each once, in `localeCompare`
/// order.
pub open spec fn lists_set(v: Seq<String>, c: Set<Seq<char>>) -> bool {
    &&& in_order(v)
    &&& c.finite()
    &&& v.len() == c.len()
    &&& id_set(v) == c
}

/// Each list of `u` lists the matching set of `cs`.
pub open spec fn lists_each(u: Seq<Vec<String>>, cs: Seq<Set<Seq<char>>>) -> bool {
    &&& u.len() == cs.len()
    &&& forall|j: int| 0 <= j < u.len() ==> lists_set((#[trigger] u[j])@, cs[j])
}

proof fn lemma_reach_start(rel: spec_fn(Seq<char>, Seq<char>) -> bool, seen: Set<Seq<char>>, s: Seq<char>)
    requires
        !seen.contains(s),
    ensures
        reach(rel, seen, s).contains(s),
{
    let p = seq![s];
    assert(walk(rel, seen, p));
}

proof fn lemma_reach_step(
    rel: spec_fn(Seq<char>, Seq<char>) -> bool,
    seen: Set<Seq<char>>,
    s: Seq<char>,
    x: Seq<char>,
    y: Seq<char>,
)
    requires
        reach(rel, seen, s).contains(x),
        rel(x, y),
        !seen.contains(y),
    ensures
        reach(rel, seen, s).contains(y),
{
    let p = choose|p: Seq<Seq<char>>| #[trigger] walk(rel, seen, p) && p[0] == s && p.last() == x;
    let q = p.push(y);
    assert forall|k: int| 0 <= k < q.len() - 1 implies rel(#[trigger] q[k], q[k + 1]) by {
        if k < p.len() - 1 {
            assert(q[k] == p[k] && q[k + 1] == p[k + 1]);
        }
    }
    assert forall|k: int| 0 <= k < q.len() implies !seen.contains(#[trigger] q[k]) by {
        if k < p.len() {
            assert(q[k] == p[k]);
        }
    }
    assert(walk(rel, seen, q));
}

proof fn lemma_walk_inside(
    rel: spec_fn(Seq<char>, Seq<char>) -> bool,
    seen: Set<Seq<char>>,
    inside: Set<Seq<char>>,
    p: Seq<Seq<char>>,
    k: int,
)
    requires
        walk(rel, seen, p),
        inside.contains(p[0]),
        forall|x: Seq<char>, y: Seq<char>| inside.contains(x) && #[trigger] rel(x, y) && !seen.contains(y) ==> inside.contains(y),
        0 <= k < p.len(),
    ensures
        inside.contains(p[k]),
    decreases k,
{
    if k > 0 {
        lemma_walk_inside(rel, seen, inside, p, k - 1);
        assert(rel(p[k - 1], p[k]));
    }
}

proof fn lemma_reach_within(
    rel: spec_fn(Seq<char>, Seq<char>) -> bool,
    seen: Set<Seq<char>>,
    s: Seq<char>,
    inside: Set<Seq<char>>,
)
    requires
        inside.contains(s),
        forall|x: Seq<char>, y: Seq<char>| inside.contains(x) && #[trigger] rel(x, y) && !seen.contains(y) ==> inside.contains(y),
    ensures
        reach(rel, seen, s).subset_of(inside),
{
    assert forall|y: Seq<char>| reach(rel, seen, s).contains(y) implies inside.contains(y) by {
        let p = choose|p: Seq<Seq<char>>| #[trigger] walk(rel, seen, p) && p[0] == s && p.last() == y;
        lemma_walk_inside(rel, seen, inside, p, p.len() - 1);
    }
}

/// The index of the first entry for `x`.
fn find_entry(adj: &Vec<(String, Vec<String>)>, x: &str) -> (r: Option<usize>)
    ensures
        match r {
            Some(i) => first_where(adj@, entry_for(x@)) == Some(i as int),
            None => first_where(adj@, entry_for(x@)) is None,
        },
{
    let ghost pred = entry_for(x@);
    let mut i: usize = 0;
    while i < adj.len()
        invariant
            i <= adj@.len(),
            pred == entry_for(x@),
            forall|k: int| 0 <= k < i ==> !pred(#[trigger] adj@[k]),
        decreases adj@.len() - i,
    {
        if str_eq(adj[i].0.as_str(), x) {
            proof {
                lemma_first_found(adj@, pred, i as int);
            }
            return Some(i);
        }
        i += 1;
    }
    proof {
        lemma_first_none(adj@, pred);
    }
    None
}

/// Every id the adjacency lists name, list after list.
pub open spec fn all_listed(adj: Seq<(String, Vec<String>)>) -> Seq<Seq<char>>
    decreases adj.len(),
{
    if adj.len() == 0 {
        Seq::empty()
    } else {
        all_listed(adj.drop_last()) + views(adj.last().1@)
    }
}

proof fn lemma_listed(adj: Seq<(String, Vec<String>)>, i: int, k: int)
    requires
        0 <= i < adj.len(),
        0 <= k < adj[i].1@.len(),
    ensures
        all_listed(adj).contains(adj[i].1@[k]@),
    decreases adj.len(),
{
    let front = all_listed(adj.drop_last());
    if i == adj.len() - 1 {
        assert(all_listed(adj)[front.len() + k] == adj[i].1@[k]@);
    } else {
        assert(adj.drop_last()[i] == adj[i]);
        lemma_listed(adj.drop_last(), i, k);
        let j = choose|j: int| 0 <= j < front.len() && front[j] == adj[i].1@[k]@;
        assert(all_listed(adj)[j] == front[j]);
    }
}

proof fn lemma_reach_finite(adj: Seq<(String, Vec<String>)>, seen: Set<Seq<char>>, s: Seq<char>)
    ensures
        reach(adj_rel(adj), seen, s).finite(),
{
    let u = all_listed(adj).to_set().insert(s);
    assert forall|y: Seq<char>| reach(adj_rel(adj), seen, s).contains(y) implies u.contains(y) by {
        let p = choose|p: Seq<Seq<char>>| #[trigger] walk(adj_rel(adj), seen, p) && p[0] == s && p.last() == y;
        if p.len() > 1 {
            let x = p[p.len() - 2];
            assert(adj_rel(adj)(x, y));
            assert(adjacent(adj, x, y));
            let pred = entry_for(x);
            if first_where(adj, pred) is None {
                assert(neighbours(adj, x) =~= Seq::<String>::empty());
            }
            let i = first_where(adj, pred)->0;
            lemma_first_some(adj, pred);
            let k = choose|k: int| 0 <= k < adj[i].1@.len() && (#[trigger] adj[i].1@[k])@ == y;
            lemma_listed(adj, i, k);
        }
    }
    vstd::set_lib::lemma_len_subset(reach(adj_rel(adj), seen, s), u);
}

proof fn lemma_has_id_push(v: Seq<String>, e: String)
    ensures
        forall|x: Seq<char>| #[trigger] has_id(v.push(e), x) == (has_id(v, x) || x == e@),
{
    assert forall|x: Seq<char>| #[trigger] has_id(v.push(e), x) == (has_id(v, x) || x == e@) by {
        if has_id(v, x) {
            let j = choose|j: int| 0 <= j < v.len() && (#[trigger] v[j])@ == x;
            assert(v.push(e)[j] == v[j]);
        }
        if x == e@ {
            assert(v.push(e)[v.len() as int]@ == x);
        }
        if has_id(v.push(e), x) {
            let j = choose|j: int| 0 <= j < v.len() + 1 && (#[trigger] v.push(e)[j])@ == x;
            if j < v.len() {
                assert(v.push(e)[j] == v[j]);
            }
        }
    }
}

/// Everything `start` reaches without entering `visited`, found depth first;
/// `visited` gains it.
fn explore(
    adj: &Vec<(String, Vec<String>)>,
    start: &String,
    visited: &mut Vec<String>,
    Ghost(v0): Ghost<Set<Seq<char>>>,
) -> (component: Vec<String>)
    requires
        forall|x: Seq<char>| #[trigger] has_id(old(visited)@, x) == v0.contains(x),
        !v0.contains(start@),
    ensures
        forall|x: Seq<char>| #[trigger] has_id(final(visited)@, x) == (v0.contains(x) || reach(adj_rel(adj@), v0, start@).contains(x)),
        reach(adj_rel(adj@), v0, start@).finite(),
        component@.len() == reach(adj_rel(adj@), v0, start@).len(),
        id_set(component@) == reach(adj_rel(adj@), v0, start@),
{
    let ghost r = reach(adj_rel(adj@), v0, start@);
    proof {
        lemma_reach_start(adj_rel(adj@), v0, start@);
        lemma_reach_finite(adj@, v0, start@);
    }
    push_id(visited, start);
    let mut stack: Vec<String> = Vec::new();
    stack.push(start.clone());
    let mut component: Vec<String> = Vec::new();
    let ghost mut s: Set<Seq<char>> = Set::empty().insert(start@);
    proof {
        assert forall|x: Seq<char>| s.contains(x) == (has_id(component@, x) || has_id(stack@, x)) by {
            if x == start@ {
                assert(stack@[0]@ == x);
            }
        }
    }
    while stack.len() > 0
        invariant
            r == reach(adj_rel(adj@), v0, start@),
            r.finite(),
            forall|x: Seq<char>| #[trigger] has_id(visited@, x) == (v0.contains(x) || s.contains(x)),
            forall|x: Seq<char>| s.contains(x) ==> r.contains(x),
            forall|x: Seq<char>| s.contains(x) == (has_id(component@, x) || has_id(stack@, x)),
            s.finite(),
            s.len() == component@.len() + stack@.len(),
            s.contains(start@),
            forall|x: Seq<char>, y: Seq<char>|
                has_id(component@, x) && #[trigger] adj_rel(adj@)(x, y) && !v0.contains(y) ==> s.contains(y),
        decreases r.len() - component@.len(),
    {
        let ghost st0 = stack@;
        let ghost comp0 = component@;
        let current = stack.pop().unwrap();
        proof {
            assert(st0 =~= stack@.push(current));
            lemma_has_id_push(stack@, current);
            lemma_has_id_push(comp0, current);
        }
        component.push(current);
        let last = component.len() - 1;
        let cur: &String = &component[last];
        match find_entry(adj, cur.as_str()) {
            Some(idx) => {
                let list = &adj[idx].1;
                proof {
                    assert(list@ == neighbours(adj@, cur@));
                }
                let mut k: usize = 0;
                while k < list.len()
                    invariant
                        r == reach(adj_rel(adj@), v0, start@),
                        r.finite(),
                        list@ == neighbours(adj@, cur@),
                        last == comp0.len(),
                        component@ == comp0.push(*cur),
                        forall|x: Seq<char>| #[trigger] has_id(visited@, x) == (v0.contains(x) || s.contains(x)),
                        forall|x: Seq<char>| s.contains(x) ==> r.contains(x),
                        forall|x: Seq<char>| s.contains(x) == (has_id(component@, x) || has_id(stack@, x)),
                        s.finite(),
                        s.len() == component@.len() + stack@.len(),
                        s.contains(start@),
                        s.contains(cur@),
                        forall|x: Seq<char>, y: Seq<char>|
                            has_id(comp0, x) && #[trigger] adj_rel(adj@)(x, y) && !v0.contains(y) ==> s.contains(y),
                        k <= list@.len(),
                        forall|j: int| 0 <= j < k ==> has_id(visited@, (#[trigger] list@[j])@),
                    decreases list@.len() - k,
                {
                    let n = &list[k];
                    if !contains_id(visited, n.as_str()) {
                        proof {
                            assert(adjacent(adj@, cur@, n@)) by {
                                assert(list@[k as int]@ == n@);
                            }
                            lemma_reach_step(adj_rel(adj@), v0, start@, cur@, n@);
                            lemma_has_id_push(stack@, *n);
                        }
                        let ghost vis0 = visited@;
                        push_id(visited, n);
                        stack.push(n.clone());
                        proof {
                            s = s.insert(n@);
                        }
                        proof {
                            assert forall|j: int| 0 <= j < k + 1 implies has_id(visited@, (#[trigger] list@[j])@) by {
                                if j < k {
                                    assert(has_id(vis0, list@[j]@));
                                }
                            }
                        }
                    }
                    k += 1;
                }
            },
            None => {
                proof {
                    assert(neighbours(adj@, cur@) =~= Seq::<String>::empty());
                }
            },
        }
        proof {
            assert forall|x: Seq<char>, y: Seq<char>|
                has_id(component@, x) && #[trigger] adj_rel(adj@)(x, y) && !v0.contains(y) implies s.contains(y) by {
                if x == cur@ {
                    let list = neighbours(adj@, cur@);
                    let j = choose|j: int| 0 <= j < list.len() && (#[trigger] list[j])@ == y;
                    assert(has_id(visited@, list[j]@));
                } else {
                    lemma_has_id_push(comp0, *cur);
                }
            }
            vstd::set_lib::lemma_len_subset(s, r);
        }
    }
    proof {
        assert(s =~= id_set(component@));
        vstd::set_lib::lemma_len_subset(s, r);
        lemma_reach_within(adj_rel(adj@), v0, start@, s);
        assert(s =~= r);
    }
    component
}

/// The ids in `localeCompare` order, equal ones in the order given.
fn sorted(v: Vec<String>) -> (r: Vec<String>)
    ensures
        r@ == sorted_by_key(v@),
{
    sort_by_key(v)
}

proof fn lemma_sorted_id_set(v: Seq<String>)
    ensures
        id_set(sorted_by_key(v)) == id_set(v),
        in_order(sorted_by_key(v)),
        sorted_by_key(v).len() == v.len(),
{
    law_sorted_in_order(v);
    let w = sorted_by_key(v);
    assert forall|x: Seq<char>| id_set(w).contains(x) == id_set(v).contains(x) by {
        if has_id(w, x) {
            let j = choose|j: int| 0 <= j < w.len() && (#[trigger] w[j])@ == x;
            lemma_sorted_contains(v, w[j]);
            assert(w.contains(w[j]));
            let k = choose|k: int| 0 <= k < v.len() && v[k] == w[j];
            assert(v[k]@ == x);
        }
        if has_id(v, x) {
            let j = choose|j: int| 0 <= j < v.len() && (#[trigger] v[j])@ == x;
            lemma_sorted_contains(v, v[j]);
            assert(v.contains(v[j]));
            let k = choose|k: int| 0 <= k < w.len() && w[k] == v[j];
            assert(w[k]@ == x);
        }
    }
    assert(id_set(w) =~= id_set(v));
}

/// The connected groups of the tables: started from each id in
/// `localeCompare` order that no group holds yet, each group all it reaches
/// along `adjacency`; each group sorted, and the groups sorted by their first
/// id.
pub fn collect_components(table_ids: &Vec<String>, adjacency: &Vec<(String, Vec<String>)>) -> (r: Vec<Vec<String>>)
    ensures
        exists|u: Seq<Vec<String>>|
            #[trigger] lists_each(u, components_spec(table_ids@, adj_rel(adjacency@))) && r@ == sorted_by_key(u),
{
    let copies = copy_strings(table_ids);
    let order = sorted(copies);
    let ghost ord = views(sorted_by_key(table_ids@));
    proof {
        assert forall|k: int| 0 <= k < copies@.len() implies (#[trigger] copies@[k]).key_view()
            == table_ids@[k].key_view() by {}
        lemma_sorted_same_keys(copies@, table_ids@);
    }
    let ghost adj = adjacency@;
    let mut visited: Vec<String> = Vec::new();
    let mut groups: Vec<Vec<String>> = Vec::new();
    let mut i: usize = 0;
    while i < order.len()
        invariant
            adj == adjacency@,
            ord == views(sorted_by_key(table_ids@)),
            order@.len() == ord.len(),
            forall|k: int| 0 <= k < order@.len() ==> (#[trigger] order@[k])@ == ord[k],
            i <= order@.len(),
            forall|x: Seq<char>| #[trigger] has_id(visited@, x) == groups_state(ord.take(i as int), adj_rel(adj)).1.contains(x),
            lists_each(groups@, groups_state(ord.take(i as int), adj_rel(adj)).0),
        decreases order@.len() - i,
    {
        let id = &order[i];
        let ghost before = groups_state(ord.take(i as int), adj_rel(adj));
        proof {
            assert(ord.take(i + 1).drop_last() =~= ord.take(i as int));
            assert(ord.take(i + 1).last() == id@);
        }
        if !contains_id(&visited, id.as_str()) {
            let comp = explore(adjacency, id, &mut visited, Ghost(before.1));
            let comp_sorted = sorted(comp);
            proof {
                lemma_sorted_id_set(comp@);
            }
            let ghost g0 = groups@;
            groups.push(comp_sorted);
            proof {
                let after = groups_state(ord.take(i + 1), adj_rel(adj));
                assert(after.0 == before.0.push(reach(adj_rel(adj), before.1, id@)));
                assert forall|j: int| 0 <= j < groups@.len() implies lists_set(
                    (#[trigger] groups@[j])@,
                    after.0[j],
                ) by {
                    if j < g0.len() {
                        assert(groups@[j] == g0[j]);
                    }
                }
            }
        }
        i += 1;
    }
    proof {
        assert(ord.take(i as int) =~= ord);
    }
    let ghost u = groups@;
    let r = sort_by_key(groups);
    assert(lists_each(u, components_spec(table_ids@, adj_rel(adjacency@))));
    r
}

// ─── Layers ────────────────────────────────────────────────────────────────

/// The boxes settled within `k` rounds: in each round, those whose parents
/// have all settled in the rounds before.
pub open spec fn settled(par: Seq<Vec<usize>>, k: nat) -> Set<int>
    decreases k,
{
    if k == 0 {
        Set::empty()
    } else {
        Set::new(
            |i: int|
                0 <= i < par.len() && forall|j: int|
                    0 <= j < par[i]@.len() ==> settled(par, (k - 1) as nat).contains(#[trigger] par[i]@[j] as int),
        )
    }
}

/// Box `i` settles: no cycle of parents lies above it.
pub open spec fn ordered(par: Seq<Vec<usize>>, i: int) -> bool {
    exists|k: nat| #[trigger] settled(par, k).contains(i)
}

/// The highest layer among the parents in `ps` that `allowed` admits.
pub open spec fn max_layer(ps: Seq<usize>, layers: Seq<u64>, allowed: spec_fn(int) -> bool) -> Option<int>
    decreases ps.len(),
{
    if ps.len() == 0 {
        None
    } else {
        let rest = max_layer(ps.drop_last(), layers, allowed);
        let p = ps.last() as int;
        if allowed(p) {
            match rest {
                Some(m) => Some(
                    if layers[p] > m {
                        layers[p] as int
                    } else {
                        m
                    },
                ),
                None => Some(layers[p] as int),
            }
        } else {
            rest
        }
    }
}

/// The layer below the highest parent, or the first layer.
pub open spec fn next_layer(m: Option<int>) -> int {
    match m {
        Some(m) => m + 1,
        None => 0,
    }
}

/// The parents a settled box counts: all of them.
pub open spec fn any_parent() -> spec_fn(int) -> bool {
    |p: int| true
}

/// The parents an unsettled box `i` counts: those given a layer before it,
/// the settled ones and the unsettled ones before it.
pub open spec fn placed_before(par: Seq<Vec<usize>>, i: int) -> spec_fn(int) -> bool {
    |p: int| ordered(par, p) || p < i
}

/// Parent lists whose entries are boxes.
pub open spec fn parents_valid(par: Seq<Vec<usize>>) -> bool {
    forall|i: int, j: int| 0 <= i < par.len() && 0 <= j < par[i]@.len() ==> (#[trigger] par[i]@[j]) < par.len()
}

proof fn lemma_settled_grow(par: Seq<Vec<usize>>, k: nat)
    ensures
        settled(par, k).subset_of(settled(par, k + 1)),
    decreases k,
{
    if k > 0 {
        lemma_settled_grow(par, (k - 1) as nat);
        assert forall|i: int| settled(par, k).contains(i) implies settled(par, k + 1).contains(i) by {
            assert forall|j: int| 0 <= j < par[i]@.len() implies settled(par, k).contains(
                #[trigger] par[i]@[j] as int,
            ) by {
                assert(settled(par, (k - 1) as nat).contains(par[i]@[j] as int));
            }
        }
    }
}

proof fn lemma_settled_mono(par: Seq<Vec<usize>>, a: nat, b: nat)
    requires
        a <= b,
    ensures
        settled(par, a).subset_of(settled(par, b)),
    decreases b - a,
{
    if a < b {
        lemma_settled_mono(par, a, (b - 1) as nat);
        lemma_settled_grow(par, (b - 1) as nat);
    }
}

/// A box whose first `n` parents all settle has them all settled by one
/// round.
proof fn lemma_parents_round(par: Seq<Vec<usize>>, i: int, n: int) -> (k: nat)
    requires
        0 <= i < par.len(),
        0 <= n <= par[i]@.len(),
        forall|j: int| 0 <= j < n ==> ordered(par, #[trigger] par[i]@[j] as int),
    ensures
        forall|j: int| 0 <= j < n ==> settled(par, k).contains(#[trigger] par[i]@[j] as int),
    decreases n,
{
    if n == 0 {
        0
    } else {
        let k0 = lemma_parents_round(par, i, n - 1);
        assert(ordered(par, par[i]@[n - 1] as int));
        let k1 = choose|k: nat| #[trigger] settled(par, k).contains(par[i]@[n - 1] as int);
        let k = if k0 > k1 {
            k0
        } else {
            k1
        };
        lemma_settled_mono(par, k0, k);
        lemma_settled_mono(par, k1, k);
        k
    }
}

proof fn lemma_ordered_step(par: Seq<Vec<usize>>, i: int)
    requires
        0 <= i < par.len(),
        forall|j: int| 0 <= j < par[i]@.len() ==> ordered(par, #[trigger] par[i]@[j] as int),
    ensures
        ordered(par, i),
{
    let k = lemma_parents_round(par, i, par[i]@.len() as int);
    assert(settled(par, k + 1).contains(i));
}

proof fn lemma_max_layer_update(ps: Seq<usize>, layers: Seq<u64>, allowed: spec_fn(int) -> bool, j: int, v: u64)
    requires
        0 <= j < layers.len(),
        forall|k: int| 0 <= k < ps.len() ==> (#[trigger] ps[k]) < layers.len(),
        !allowed(j) || forall|k: int| 0 <= k < ps.len() ==> (#[trigger] ps[k]) as int != j,
    ensures
        max_layer(ps, layers.update(j, v), allowed) == max_layer(ps, layers, allowed),
    decreases ps.len(),
{
    if ps.len() > 0 {
        assert forall|k: int| 0 <= k < ps.drop_last().len() implies (#[trigger] ps.drop_last()[k]) as int != j
            || !allowed(j) by {
            assert(ps.drop_last()[k] == ps[k]);
        }
        assert forall|k: int| 0 <= k < ps.drop_last().len() implies (#[trigger] ps.drop_last()[k]) < layers.len() by {
            assert(ps.drop_last()[k] == ps[k]);
        }
        lemma_max_layer_update(ps.drop_last(), layers, allowed, j, v);
        let p = ps.last() as int;
        if allowed(p) {
            assert(ps[ps.len() - 1] == ps.last());
            assert(layers.update(j, v)[p] == layers[p]);
        }
    }
}

proof fn lemma_max_layer_below(ps: Seq<usize>, layers: Seq<u64>, allowed: spec_fn(int) -> bool, bound: int)
    requires
        forall|k: int| 0 <= k < ps.len() && allowed(ps[k] as int) ==> layers[#[trigger] ps[k] as int] < bound,
    ensures
        match max_layer(ps, layers, allowed) {
            Some(m) => 0 <= m < bound,
            None => true,
        },
    decreases ps.len(),
{
    if ps.len() > 0 {
        assert forall|k: int| 0 <= k < ps.drop_last().len() && allowed(ps.drop_last()[k] as int) implies layers[
            #[trigger] ps.drop_last()[k] as int] < bound by {
            assert(ps.drop_last()[k] == ps[k]);
        }
        lemma_max_layer_below(ps.drop_last(), layers, allowed, bound);
        assert(allowed(ps.last() as int) ==> layers[ps.last() as int] < bound) by {
            assert(ps.last() == ps[ps.len() - 1]);
        }
    }
}

/// The highest layer among the parents of `i` that `done` marks, then the
/// layer after it.
fn layer_after_parents(
    ps: &Vec<usize>,
    layers: &Vec<u64>,
    done: &Vec<bool>,
    Ghost(allowed): Ghost<spec_fn(int) -> bool>,
    Ghost(bound): Ghost<int>,
) -> (r: u64)
    requires
        layers@.len() == done@.len(),
        forall|k: int| 0 <= k < ps@.len() ==> (#[trigger] ps@[k]) < done@.len(),
        forall|p: int| 0 <= p < done@.len() ==> done@[p] == allowed(p),
        forall|p: int| 0 <= p < done@.len() && done@[p] ==> #[trigger] layers@[p] < bound,
        0 <= bound <= u64::MAX,
    ensures
        r == next_layer(max_layer(ps@, layers@, allowed)),
        r <= bound,
{
    let mut best: Option<u64> = None;
    let mut k: usize = 0;
    while k < ps.len()
        invariant
            k <= ps@.len(),
            layers@.len() == done@.len(),
            forall|x: int| 0 <= x < ps@.len() ==> (#[trigger] ps@[x]) < done@.len(),
            forall|p: int| 0 <= p < done@.len() ==> done@[p] == allowed(p),
            forall|p: int| 0 <= p < done@.len() && done@[p] ==> #[trigger] layers@[p] < bound,
            bound <= u64::MAX,
            match best {
                Some(m) => max_layer(ps@.take(k as int), layers@, allowed) == Some(m as int),
                None => max_layer(ps@.take(k as int), layers@, allowed) is None,
            },
        decreases ps@.len() - k,
    {
        proof {
            assert(ps@.take(k + 1).drop_last() =~= ps@.take(k as int));
            assert(ps@.take(k + 1).last() == ps@[k as int]);
        }
        let p = ps[k];
        if done[p] {
            let l = layers[p];
            best = match best {
                Some(m) => Some(
                    if l > m {
                        l
                    } else {
                        m
                    },
                ),
                None => Some(l),
            };
        }
        k += 1;
    }
    proof {
        assert(ps@.take(k as int) =~= ps@);
        assert forall|x: int| 0 <= x < ps@.len() && allowed(ps@[x] as int) implies layers@[
            #[trigger] ps@[x] as int] < bound by {
            assert(done@[ps@[x] as int]);
        }
        lemma_max_layer_below(ps@, layers@, allowed, bound);
        if best is Some {
            assert(max_layer(ps@, layers@, allowed) == Some(best->0 as int));
            assert(best->0 < bound);
        }
    }
    match best {
        Some(m) => m + 1,
        None => 0,
    }
}

proof fn lemma_max_layer_agree(ps: Seq<usize>, layers: Seq<u64>, a: spec_fn(int) -> bool, b: spec_fn(int) -> bool)
    requires
        forall|k: int| 0 <= k < ps.len() ==> a(#[trigger] ps[k] as int) == b(ps[k] as int),
    ensures
        max_layer(ps, layers, a) == max_layer(ps, layers, b),
    decreases ps.len(),
{
    if ps.len() > 0 {
        assert forall|k: int| 0 <= k < ps.drop_last().len() implies a(#[trigger] ps.drop_last()[k] as int) == b(
            ps.drop_last()[k] as int,
        ) by {
            assert(ps.drop_last()[k] == ps[k]);
        }
        lemma_max_layer_agree(ps.drop_last(), layers, a, b);
        assert(ps.last() == ps[ps.len() - 1]);
    }
}

/// Every box whose parents all lie in `inside` lies in it, so every settled
/// box does.
proof fn lemma_settled_inside(par: Seq<Vec<usize>>, inside: Set<int>, k: nat)
    requires
        forall|i: int|
            0 <= i < par.len() && (forall|j: int| 0 <= j < par[i]@.len() ==> inside.contains(#[trigger] par[i]@[j] as int))
                ==> inside.contains(i),
    ensures
        settled(par, k).subset_of(inside),
    decreases k,
{
    if k > 0 {
        lemma_settled_inside(par, inside, (k - 1) as nat);
        assert forall|i: int| settled(par, k).contains(i) implies inside.contains(i) by {
            assert forall|j: int| 0 <= j < par[i]@.len() implies inside.contains(#[trigger] par[i]@[j] as int) by {
                assert(settled(par, (k - 1) as nat).contains(par[i]@[j] as int));
            }
        }
    }
}

/// All parents of box `i` are marked in `done`.
fn parents_done(ps: &Vec<usize>, done: &Vec<bool>) -> (r: bool)
    requires
        forall|k: int| 0 <= k < ps@.len() ==> (#[trigger] ps@[k]) < done@.len(),
    ensures
        r == forall|k: int| 0 <= k < ps@.len() ==> done@[#[trigger] ps@[k] as int],
{
    let mut k: usize = 0;
    while k < ps.len()
        invariant
            k <= ps@.len(),
            forall|x: int| 0 <= x < ps@.len() ==> (#[trigger] ps@[x]) < done@.len(),
            forall|x: int| 0 <= x < k ==> done@[#[trigger] ps@[x] as int],
        decreases ps@.len() - k,
    {
        if !done[ps[k]] {
            return false;
        }
        k += 1;
    }
    true
}

/// The first box not yet done whose parents all are.
fn first_ready(parents: &Vec<Vec<usize>>, done: &Vec<bool>) -> (r: Option<usize>)
    requires
        parents_valid(parents@),
        done@.len() == parents@.len(),
    ensures
        match r {
            Some(i) => i < done@.len() && !done@[i as int] && forall|k: int|
                0 <= k < parents@[i as int]@.len() ==> done@[#[trigger] parents@[i as int]@[k] as int],
            None => forall|i: int|
                0 <= i < done@.len() && !done@[i] ==> exists|k: int|
                    0 <= k < parents@[i]@.len() && !done@[#[trigger] parents@[i]@[k] as int],
        },
{
    let mut i: usize = 0;
    while i < parents.len()
        invariant
            i <= parents@.len(),
            parents_valid(parents@),
            done@.len() == parents@.len(),
            forall|x: int|
                0 <= x < i && !done@[x] ==> exists|k: int|
                    0 <= k < parents@[x]@.len() && !done@[#[trigger] parents@[x]@[k] as int],
        decreases parents@.len() - i,
    {
        if !done[i] && parents_done(&parents[i], done) {
            return Some(i);
        }
        i += 1;
    }
    None
}

/// The layer of each box of a group, the boxes in `localeCompare` order and
/// `parents` listing the boxes each one references. A box whose parents
/// all settle (no cycle above it) lies one layer below its lowest parent, or
/// in the first layer without parents; the other boxes, in order, lie one
/// layer below the lowest parent already given a layer.
#[verifier::rlimit(60)]
fn assign_layers(parents: &Vec<Vec<usize>>) -> (r: Vec<u64>)
    requires
        parents_valid(parents@),
    ensures
        r@.len() == parents@.len(),
        forall|i: int|
            0 <= i < r@.len() && ordered(parents@, i) ==> r@[i] == next_layer(
                max_layer(parents@[i]@, r@, any_parent()),
            ),
        forall|i: int|
            0 <= i < r@.len() && !ordered(parents@, i) ==> r@[i] == next_layer(
                max_layer(parents@[i]@, r@, placed_before(parents@, i)),
            ),
        forall|i: int| 0 <= i < r@.len() ==> r@[i] < parents@.len(),
{
    let n = parents.len();
    let ghost par = parents@;
    let mut layers: Vec<u64> = Vec::new();
    let mut done: Vec<bool> = Vec::new();
    while layers.len() < n
        invariant
            layers@.len() == done@.len(),
            layers@.len() <= n,
            forall|p: int| 0 <= p < done@.len() ==> !done@[p],
        decreases n - layers@.len(),
    {
        layers.push(0);
        done.push(false);
    }
    let ghost mut d: Set<int> = Set::empty();
    // Settle the boxes whose parents are all settled, the first one first.
    loop
        invariant
            par == parents@,
            parents_valid(par),
            n == par.len(),
            layers@.len() == n,
            done@.len() == n,
            d.finite(),
            d.subset_of(vstd::set_lib::set_int_range(0, n as int)),
            d.len() <= n,
            forall|p: int| 0 <= p < n ==> (#[trigger] done@[p] == d.contains(p)),
            forall|p: int| 0 <= p < n && done@[p] ==> ordered(par, p),
            forall|p: int, k: int|
                0 <= p < n && done@[p] && 0 <= k < par[p]@.len() ==> done@[#[trigger] par[p]@[k] as int],
            forall|p: int|
                0 <= p < n && done@[p] ==> #[trigger] layers@[p] == next_layer(
                    max_layer(par[p]@, layers@, any_parent()),
                ),
            forall|p: int| 0 <= p < n && done@[p] ==> #[trigger] layers@[p] < d.len(),
        ensures
            forall|p: int|
                0 <= p < n && (forall|k: int| 0 <= k < par[p]@.len() ==> d.contains(#[trigger] par[p]@[k] as int))
                    ==> d.contains(p),
        decreases n - d.len(),
    {
        match first_ready(parents, &done) {
            None => {
                proof {
                    assert forall|p: int|
                        0 <= p < n && (forall|k: int|
                            0 <= k < par[p]@.len() ==> d.contains(#[trigger] par[p]@[k] as int)) implies d.contains(
                        p,
                    ) by {
                        if !d.contains(p) {
                            assert(!done@[p]);
                            let k = choose|k: int| 0 <= k < par[p]@.len() && !done@[#[trigger] par[p]@[k] as int];
                            assert(d.contains(par[p]@[k] as int));
                        }
                    }
                }
                break;
            },
            Some(i) => {
                let ghost dn = done@;
                let ghost allowed = |p: int| dn[p];
                proof {
                    lemma_max_layer_agree(par[i as int]@, layers@, allowed, any_parent());
                }
                let l = layer_after_parents(&parents[i], &layers, &done, Ghost(allowed), Ghost(d.len() as int));
                let ghost before = layers@;
                layers.set(i, l);
                done.set(i, true);
                proof {
                    assert forall|j: int| 0 <= j < par[i as int]@.len() implies ordered(
                        par,
                        #[trigger] par[i as int]@[j] as int,
                    ) by {
                        assert(dn[par[i as int]@[j] as int]);
                    }
                    lemma_ordered_step(par, i as int);
                    assert(!d.contains(i as int));
                    d = d.insert(i as int);
                    vstd::set_lib::lemma_int_range(0, n as int);
                    vstd::set_lib::lemma_len_subset(d, vstd::set_lib::set_int_range(0, n as int));
                    assert forall|p: int|
                        0 <= p < n && done@[p] implies #[trigger] layers@[p] == next_layer(
                        max_layer(par[p]@, layers@, any_parent()),
                    ) by {
                        assert forall|k: int| 0 <= k < par[p]@.len() implies (#[trigger] par[p]@[k]) as int
                            != i by {
                            if p != i {
                                assert(dn[par[p]@[k] as int]);
                            }
                        }
                        lemma_max_layer_update(par[p]@, before, any_parent(), i as int, l);
                    }
                }
            },
        }
    }
    proof {
        assert forall|p: int| 0 <= p < n implies (done@[p] == ordered(par, p)) by {
            if ordered(par, p) {
                let k = choose|k: nat| #[trigger] settled(par, k).contains(p);
                lemma_settled_inside(par, d, k);
            }
        }
        assert forall|p: int, k: int|
            0 <= p < n && ordered(par, p) && 0 <= k < par[p]@.len() implies ordered(
            par,
            #[trigger] par[p]@[k] as int,
        ) by {
            assert(done@[par[p]@[k] as int]);
        }
    }
    // The rest, in order, after the parents given a layer.
    let mut i: usize = 0;
    while i < n
        invariant
            par == parents@,
            parents_valid(par),
            n == par.len(),
            i <= n,
            layers@.len() == n,
            done@.len() == n,
            d.finite(),
            d.subset_of(vstd::set_lib::set_int_range(0, n as int)),
            d.len() <= n,
            forall|p: int| 0 <= p < n ==> (#[trigger] done@[p] == d.contains(p)),
            forall|p: int| 0 <= p < n ==> (#[trigger] done@[p] == (ordered(par, p) || p < i)),
            forall|p: int, k: int|
                0 <= p < n && ordered(par, p) && 0 <= k < par[p]@.len() ==> ordered(par, #[trigger] par[p]@[k] as int),
            forall|p: int|
                0 <= p < n && ordered(par, p) ==> #[trigger] layers@[p] == next_layer(
                    max_layer(par[p]@, layers@, any_parent()),
                ),
            forall|p: int|
                0 <= p < i && !ordered(par, p) ==> #[trigger] layers@[p] == next_layer(
                    max_layer(par[p]@, layers@, placed_before(par, p)),
                ),
            forall|p: int| 0 <= p < n && done@[p] ==> #[trigger] layers@[p] < d.len(),
        decreases n - i,
    {
        if !done[i] {
            let ghost dn = done@;
            let ghost allowed = |p: int| dn[p];
            proof {
                assert forall|k: int| 0 <= k < par[i as int]@.len() implies allowed(#[trigger] par[i as int]@[k] as int)
                    == placed_before(par, i as int)(par[i as int]@[k] as int) by {
                    let x = par[i as int]@[k] as int;
                    assert(x < n);
                    assert(dn[x] == (ordered(par, x) || x < i));
                }
                lemma_max_layer_agree(par[i as int]@, layers@, allowed, placed_before(par, i as int));
            }
            let l = layer_after_parents(&parents[i], &layers, &done, Ghost(allowed), Ghost(d.len() as int));
            let ghost before = layers@;
            layers.set(i, l);
            done.set(i, true);
            proof {
                assert(!d.contains(i as int));
                d = d.insert(i as int);
                vstd::set_lib::lemma_int_range(0, n as int);
                vstd::set_lib::lemma_len_subset(d, vstd::set_lib::set_int_range(0, n as int));
                assert(!placed_before(par, i as int)(i as int));
                lemma_max_layer_update(par[i as int]@, before, placed_before(par, i as int), i as int, l);
                assert forall|p: int| 0 <= p < n implies (done@[p] == (ordered(par, p) || p < i + 1)) by {
                    if p != i {
                        assert(done@[p] == dn[p]);
                    }
                }
                assert forall|p: int|
                    0 <= p < n && ordered(par, p) implies #[trigger] layers@[p] == next_layer(
                    max_layer(par[p]@, layers@, any_parent()),
                ) by {
                    assert forall|k: int| 0 <= k < par[p]@.len() implies (#[trigger] par[p]@[k]) as int != i by {
                        assert(ordered(par, par[p]@[k] as int));
                    }
                    lemma_max_layer_update(par[p]@, before, any_parent(), i as int, l);
                }
                assert forall|p: int|
                    0 <= p < i && !ordered(par, p) implies #[trigger] layers@[p] == next_layer(
                    max_layer(par[p]@, layers@, placed_before(par, p)),
                ) by {
                    assert(!placed_before(par, p)(i as int));
                    lemma_max_layer_update(par[p]@, before, placed_before(par, p), i as int, l);
                }
            }
        }
        proof {
            assert forall|p: int| 0 <= p < n implies (done@[p] == (ordered(par, p) || p < i + 1)) by {
                if p == i {
                    assert(done@[p]);
                }
            }
        }
        i += 1;
    }
    layers
}

// ─── Placement ─────────────────────────────────────────────────────────────

pub const CLUSTER_GAP_X: u64 = 180;
pub const LAYER_GAP_X: u64 = 280;
pub const NODE_GAP_Y: u64 = 48;

/// A position on the canvas, in pixels.
#[derive(Clone, Copy, Debug, PartialEq, Eq, Structural)]
pub struct Point {
    pub x: u64,
    pub y: u64,
}

/// A sum cut down to what a `u64` holds.
pub open spec fn sat_add(a: int, b: int) -> int {
    crate::relationship::sat64(a + b)
}

fn add_sat(a: u64, b: u64) -> (r: u64)
    ensures
        r == sat_add(a as int, b as int),
{
    if a > u64::MAX - b {
        u64::MAX
    } else {
        a + b
    }
}

fn mul_sat(a: u64, b: u64) -> (r: u64)
    ensures
        r == crate::relationship::sat64(a * b),
{
    if b == 0 {
        0
    } else if a > u64::MAX / b {
        proof {
            assert(a * b > u64::MAX) by (nonlinear_arith)
                requires
                    a > u64::MAX / b,
                    b > 0,
            ;
        }
        u64::MAX
    } else {
        proof {
            assert(a * b <= u64::MAX) by (nonlinear_arith)
                requires
                    a <= u64::MAX / b,
                    b > 0,
            ;
        }
        a * b
    }
}

/// The last box with id `id`: the one a map from ids to boxes keeps.
pub open spec fn last_table(tables: Seq<DiagramTable>, id: Seq<char>) -> Option<int>
    decreases tables.len(),
{
    if tables.len() == 0 {
        None
    } else if tables.last().id@ == id {
        Some(tables.len() - 1)
    } else {
        last_table(tables.drop_last(), id)
    }
}

/// The width of the box with id `id`, or `0` for an id with no box.
pub open spec fn width_of(g: DiagramGraph, id: Seq<char>) -> int {
    match last_table(g.tables@, id) {
        Some(i) => g.tables@[i].width as int,
        None => 0,
    }
}

/// The height of the box with id `id`, or `0` for an id with no box.
pub open spec fn height_of(g: DiagramGraph, id: Seq<char>) -> int {
    match last_table(g.tables@, id) {
        Some(i) => g.tables@[i].height as int,
        None => 0,
    }
}

/// Where layer `l` starts, from the left of its group.
pub open spec fn layer_x(l: u64) -> int {
    crate::relationship::sat64(LAYER_GAP_X * l)
}

/// How far the group reaches to the right: the furthest right edge of its
/// first `n` boxes, an id without a box counting as a point at its layer.
pub open spec fn group_width(g: DiagramGraph, grp: Seq<String>, lay: Seq<u64>, n: int) -> int
    decreases n,
{
    if n <= 0 {
        0
    } else {
        let rest = group_width(g, grp, lay, n - 1);
        let here = sat_add(layer_x(lay[n - 1]), width_of(g, grp[n - 1]@));
        if here > rest {
            here
        } else {
            rest
        }
    }
}

/// Where group `c` starts: after the groups before it, each as wide as it
/// reaches and `180` apart.
pub open spec fn group_x(g: DiagramGraph, groups: Seq<Vec<String>>, layers: Seq<Vec<u64>>, c: int) -> int
    decreases c,
{
    if c <= 0 {
        0
    } else {
        sat_add(
            group_x(g, groups, layers, c - 1),
            sat_add(group_width(g, groups[c - 1]@, layers[c - 1]@, groups[c - 1]@.len() as int), CLUSTER_GAP_X as int),
        )
    }
}

/// How far down layer `l` of a group reaches after its first `m` boxes: each
/// box of that layer stacked under the one before, `48` apart.
pub open spec fn stack_y(g: DiagramGraph, grp: Seq<String>, lay: Seq<u64>, l: u64, m: int) -> int
    decreases m,
{
    if m <= 0 {
        0
    } else {
        let rest = stack_y(g, grp, lay, l, m - 1);
        if lay[m - 1] == l && last_table(g.tables@, grp[m - 1]@) is Some {
            sat_add(rest, sat_add(height_of(g, grp[m - 1]@), NODE_GAP_Y as int))
        } else {
            rest
        }
    }
}

/// Where box `k` of group `c` goes.
pub open spec fn point_at(g: DiagramGraph, groups: Seq<Vec<String>>, layers: Seq<Vec<u64>>, c: int, k: int) -> Point {
    let l = layers[c]@[k];
    Point {
        x: sat_add(group_x(g, groups, layers, c), layer_x(l)) as u64,
        y: stack_y(g, groups[c]@, layers[c]@, l, k) as u64,
    }
}

/// A list that holds `id`.
pub open spec fn holds_id(id: Seq<char>) -> spec_fn(Vec<String>) -> bool {
    |v: Vec<String>| has_id(v@, id)
}

/// A string that reads `id`.
pub open spec fn is_id(id: Seq<char>) -> spec_fn(String) -> bool {
    |s: String| s@ == id
}

/// The group holding `id` and its place there: the first group that does,
/// the first place.
pub open spec fn locate(groups: Seq<Vec<String>>, id: Seq<char>) -> Option<(int, int)> {
    match first_where(groups, holds_id(id)) {
        Some(c) => match first_where(groups[c]@, is_id(id)) {
            Some(k) => Some((c, k)),
            None => None,
        },
        None => None,
    }
}

/// The position of box `i`: where its id stands in the groups, else the
/// origin.
pub open spec fn position_of(g: DiagramGraph, groups: Seq<Vec<String>>, layers: Seq<Vec<u64>>, id: Seq<char>) -> Point {
    match locate(groups, id) {
        Some((c, k)) => point_at(g, groups, layers, c, k),
        None => Point { x: 0, y: 0 },
    }
}

/// Each group has a layer for each of its boxes.
pub open spec fn layers_match(groups: Seq<Vec<String>>, layers: Seq<Vec<u64>>) -> bool {
    groups.len() == layers.len() && forall|c: int| 0 <= c < groups.len() ==> (#[trigger] groups[c])@.len()
        == layers[c]@.len()
}

fn table_size(g: &DiagramGraph, id: &str) -> (r: Option<(u64, u64)>)
    ensures
        match last_table(g.tables@, id@) {
            Some(i) => r == Some((g.tables@[i].width, g.tables@[i].height)),
            None => r is None,
        },
{
    let mut found: Option<(u64, u64)> = None;
    let mut i: usize = 0;
    while i < g.tables.len()
        invariant
            i <= g.tables@.len(),
            match last_table(g.tables@.take(i as int), id@) {
                Some(j) => found == Some((g.tables@[j].width, g.tables@[j].height)),
                None => found is None,
            },
        decreases g.tables@.len() - i,
    {
        proof {
            assert(g.tables@.take(i + 1).drop_last() =~= g.tables@.take(i as int));
            assert(g.tables@.take(i + 1).last() == g.tables@[i as int]);
        }
        if str_eq(g.tables[i].id.as_str(), id) {
            found = Some((g.tables[i].width, g.tables[i].height));
        }
        i += 1;
    }
    proof {
        assert(g.tables@.take(i as int) =~= g.tables@);
    }
    found
}

proof fn lemma_last_table_in(tables: Seq<DiagramTable>, id: Seq<char>)
    ensures
        match last_table(tables, id) {
            Some(i) => 0 <= i < tables.len() && tables[i].id@ == id,
            None => true,
        },
    decreases tables.len(),
{
    if tables.len() > 0 && tables.last().id@ != id {
        lemma_last_table_in(tables.drop_last(), id);
    }
}

fn group_extent(g: &DiagramGraph, grp: &Vec<String>, lay: &Vec<u64>) -> (r: u64)
    requires
        grp@.len() == lay@.len(),
    ensures
        r == group_width(*g, grp@, lay@, grp@.len() as int),
{
    let mut widest: u64 = 0;
    let mut k: usize = 0;
    while k < grp.len()
        invariant
            grp@.len() == lay@.len(),
            k <= grp@.len(),
            widest == group_width(*g, grp@, lay@, k as int),
        decreases grp@.len() - k,
    {
        let w = match table_size(g, grp[k].as_str()) {
            Some((w, _)) => w,
            None => 0,
        };
        let here = add_sat(mul_sat(LAYER_GAP_X, lay[k]), w);
        if here > widest {
            widest = here;
        }
        k += 1;
    }
    widest
}

fn stack_height(g: &DiagramGraph, grp: &Vec<String>, lay: &Vec<u64>, l: u64, m: usize) -> (r: u64)
    requires
        grp@.len() == lay@.len(),
        m <= grp@.len(),
    ensures
        r == stack_y(*g, grp@, lay@, l, m as int),
{
    let mut y: u64 = 0;
    let mut j: usize = 0;
    while j < m
        invariant
            grp@.len() == lay@.len(),
            m <= grp@.len(),
            j <= m,
            y == stack_y(*g, grp@, lay@, l, j as int),
        decreases m - j,
    {
        if lay[j] == l {
            match table_size(g, grp[j].as_str()) {
                Some((_, h)) => {
                    y = add_sat(y, add_sat(h, NODE_GAP_Y));
                },
                None => {},
            }
        }
        j += 1;
    }
    y
}

fn find_group(groups: &Vec<Vec<String>>, id: &str) -> (r: Option<(usize, usize)>)
    ensures
        match r {
            Some((c, k)) => locate(groups@, id@) == Some((c as int, k as int)),
            None => locate(groups@, id@) is None,
        },
{
    let ghost gp = holds_id(id@);
    let ghost kp = is_id(id@);
    let mut c: usize = 0;
    while c < groups.len()
        invariant
            c <= groups@.len(),
            gp == holds_id(id@),
            kp == is_id(id@),
            forall|x: int| 0 <= x < c ==> !gp(#[trigger] groups@[x]),
        decreases groups@.len() - c,
    {
        let grp = &groups[c];
        let mut k: usize = 0;
        while k < grp.len()
            invariant
                c < groups@.len(),
                *grp == groups@[c as int],
                gp == holds_id(id@),
                kp == is_id(id@),
                forall|x: int| 0 <= x < c ==> !gp(#[trigger] groups@[x]),
                k <= grp@.len(),
                forall|x: int| 0 <= x < k ==> !kp(#[trigger] grp@[x]),
            decreases grp@.len() - k,
        {
            if str_eq(grp[k].as_str(), id) {
                proof {
                    assert(kp(grp@[k as int]));
                    assert(gp(groups@[c as int]));
                    crate::seqs::lemma_first_found(grp@, kp, k as int);
                    crate::seqs::lemma_first_found(groups@, gp, c as int);
                }
                return Some((c, k));
            }
            k += 1;
        }
        proof {
            assert(!gp(groups@[c as int])) by {
                if gp(groups@[c as int]) {
                    let x = choose|x: int| 0 <= x < grp@.len() && (#[trigger] grp@[x])@ == id@;
                    assert(!kp(grp@[x]));
                }
            }
        }
        c += 1;
    }
    proof {
        crate::seqs::lemma_first_none(groups@, gp);
    }
    None
}

/// The position of each box: its group side by side with the groups before
/// it, its layer `280` to the right of the one before, under the boxes of
/// its layer before it.
pub fn place(graph: &DiagramGraph, groups: &Vec<Vec<String>>, layers: &Vec<Vec<u64>>) -> (r: Vec<(String, Point)>)
    requires
        layers_match(groups@, layers@),
    ensures
        r@.len() == graph.tables@.len(),
        forall|i: int|
            0 <= i < r@.len() ==> (#[trigger] r@[i]).0@ == graph.tables@[i].id@ && r@[i].1 == position_of(
                *graph,
                groups@,
                layers@,
                graph.tables@[i].id@,
            ),
{
    // Where each group starts.
    let mut starts: Vec<u64> = Vec::new();
    let mut x: u64 = 0;
    let mut c: usize = 0;
    while c < groups.len()
        invariant
            layers_match(groups@, layers@),
            c <= groups@.len(),
            starts@.len() == c,
            x == group_x(*graph, groups@, layers@, c as int),
            forall|j: int| 0 <= j < c ==> #[trigger] starts@[j] == group_x(*graph, groups@, layers@, j),
        decreases groups@.len() - c,
    {
        starts.push(x);
        assert(groups@[c as int]@.len() == layers@[c as int]@.len());
        let w = group_extent(graph, &groups[c], &layers[c]);
        x = add_sat(x, add_sat(w, CLUSTER_GAP_X));
        c += 1;
    }
    let mut out: Vec<(String, Point)> = Vec::new();
    let mut i: usize = 0;
    while i < graph.tables.len()
        invariant
            layers_match(groups@, layers@),
            starts@.len() == groups@.len(),
            forall|j: int| 0 <= j < groups@.len() ==> #[trigger] starts@[j] == group_x(*graph, groups@, layers@, j),
            i <= graph.tables@.len(),
            out@.len() == i,
            forall|j: int|
                0 <= j < i ==> (#[trigger] out@[j]).0@ == graph.tables@[j].id@ && out@[j].1 == position_of(
                    *graph,
                    groups@,
                    layers@,
                    graph.tables@[j].id@,
                ),
        decreases graph.tables@.len() - i,
    {
        let id = graph.tables[i].id.as_str();
        let p = match find_group(groups, id) {
            Some((c, k)) => {
                proof {
                    let loc = locate(groups@, id@);
                    assert(loc is Some);
                    assert(first_where(groups@, holds_id(id@)) == Some(c as int));
                    assert(first_where(groups@[c as int]@, is_id(id@)) == Some(k as int));
                    crate::seqs::lemma_first_some(groups@, holds_id(id@));
                    crate::seqs::lemma_first_some(groups@[c as int]@, is_id(id@));
                    assert(groups@[c as int]@.len() == layers@[c as int]@.len());
                }
                let l = layers[c][k];
                let y = stack_height(graph, &groups[c], &layers[c], l, k);
                Point { x: add_sat(starts[c], mul_sat(LAYER_GAP_X, l)), y }
            },
            None => Point { x: 0, y: 0 },
        };
        out.push((graph.tables[i].id.clone(), p));
        i += 1;
    }
    out
}

// ─── The default layout ────────────────────────────────────────────────────

/// `id` names a box of the diagram.
pub open spec fn is_table(g: DiagramGraph, id: Seq<char>) -> bool {
    exists|i: int| 0 <= i < g.tables@.len() && (#[trigger] g.tables@[i]).id@ == id
}

/// An edge joins `x` to `y`, in either direction.
pub open spec fn joined(g: DiagramGraph, x: Seq<char>, y: Seq<char>) -> bool {
    exists|e: int|
        0 <= e < g.edges@.len() && ((#[trigger] g.edges@[e]).source_table_id@ == x && g.edges@[e].target_table_id@ == y
            || g.edges@[e].target_table_id@ == x && g.edges@[e].source_table_id@ == y)
}

/// The relation the layout groups boxes by: from a box to every id an edge
/// joins it to.
pub open spec fn graph_rel(g: DiagramGraph) -> spec_fn(Seq<char>, Seq<char>) -> bool {
    |x: Seq<char>, y: Seq<char>| is_table(g, x) && joined(g, x, y)
}

/// The ids of the boxes, in the diagram's order.
pub open spec fn table_ids_spec(g: DiagramGraph) -> Seq<String> {
    g.tables@.map_values(|t: DiagramTable| t.id)
}

/// The groups of the layout: connected by edges, started from the box ids in
/// `localeCompare` order.
pub open spec fn layout_groups(g: DiagramGraph) -> Seq<Set<Seq<char>>> {
    components_spec(table_ids_spec(g), graph_rel(g))
}

/// `parent` is a parent of `child`: a box that a foreign key of `child`,
/// not one to itself, references.
pub open spec fn parent_of(g: DiagramGraph, child: Seq<char>, parent: Seq<char>) -> bool {
    &&& is_table(g, parent)
    &&& exists|e: int|
        0 <= e < g.edges@.len() && !(#[trigger] g.edges@[e]).is_self_referential && g.edges@[e].source_table_id@
            == child && g.edges@[e].target_table_id@ == parent
}

/// `par` lists, for each member of the group, the members that are its
/// parents.
pub open spec fn parents_listed(g: DiagramGraph, grp: Seq<String>, par: Seq<Vec<usize>>) -> bool {
    &&& par.len() == grp.len()
    &&& parents_valid(par)
    &&& forall|i: int, x: int|
        0 <= i < grp.len() && 0 <= x < grp.len() ==> (#[trigger] par[i]@.contains(x as usize) == parent_of(
            g,
            grp[i]@,
            grp[x]@,
        ))
}

/// `lay` holds the layers `assign_layers` gives boxes with parents `par`.
pub open spec fn layers_solve(par: Seq<Vec<usize>>, lay: Seq<u64>) -> bool {
    &&& lay.len() == par.len()
    &&& forall|i: int|
        0 <= i < lay.len() && ordered(par, i) ==> lay[i] == next_layer(max_layer(par[i]@, lay, any_parent()))
    &&& forall|i: int|
        0 <= i < lay.len() && !ordered(par, i) ==> lay[i] == next_layer(
            max_layer(par[i]@, lay, placed_before(par, i)),
        )
}

/// `r` is the default layout of `g`, with the groups, parents and layers
/// it is placed by.
pub open spec fn layout_of(
    g: DiagramGraph,
    groups: Seq<Vec<String>>,
    par: Seq<Seq<Vec<usize>>>,
    layers: Seq<Vec<u64>>,
    r: Seq<(String, Point)>,
) -> bool {
    &&& exists|u: Seq<Vec<String>>| #[trigger] lists_each(u, layout_groups(g)) && groups == sorted_by_key(u)
    &&& par.len() == groups.len()
    &&& layers_match(groups, layers)
    &&& forall|c: int|
        0 <= c < groups.len() ==> parents_listed(g, (#[trigger] groups[c])@, par[c]) && layers_solve(
            par[c],
            layers[c]@,
        )
    &&& r.len() == g.tables@.len()
    &&& forall|i: int|
        0 <= i < r.len() ==> (#[trigger] r[i]).0@ == g.tables@[i].id@ && r[i].1 == position_of(
            g,
            groups,
            layers,
            g.tables@[i].id@,
        )
}

/// The ids an edge joins to `id`, in edge order.
fn joined_ids(g: &DiagramGraph, id: &String) -> (r: Vec<String>)
    ensures
        forall|y: Seq<char>| #[trigger] has_id(r@, y) == joined(*g, id@, y),
{
    let mut out: Vec<String> = Vec::new();
    let mut e: usize = 0;
    while e < g.edges.len()
        invariant
            e <= g.edges@.len(),
            forall|y: Seq<char>|
                #[trigger] has_id(out@, y) == exists|k: int|
                    0 <= k < e && ((#[trigger] g.edges@[k]).source_table_id@ == id@ && g.edges@[k].target_table_id@
                        == y || g.edges@[k].target_table_id@ == id@ && g.edges@[k].source_table_id@ == y),
        decreases g.edges@.len() - e,
    {
        let edge = &g.edges[e];
        let ghost before = out@;
        if str_eq(edge.source_table_id.as_str(), id.as_str()) {
            push_id(&mut out, &edge.target_table_id);
        }
        let ghost mid = out@;
        if str_eq(edge.target_table_id.as_str(), id.as_str()) {
            push_id(&mut out, &edge.source_table_id);
        }
        proof {
            assert forall|y: Seq<char>| #[trigger] has_id(out@, y) == exists|k: int|
                0 <= k < e + 1 && ((#[trigger] g.edges@[k]).source_table_id@ == id@ && g.edges@[k].target_table_id@
                    == y || g.edges@[k].target_table_id@ == id@ && g.edges@[k].source_table_id@ == y) by {
                if has_id(before, y) {
                    let k = choose|k: int|
                        0 <= k < e && ((#[trigger] g.edges@[k]).source_table_id@ == id@
                            && g.edges@[k].target_table_id@ == y || g.edges@[k].target_table_id@ == id@
                            && g.edges@[k].source_table_id@ == y);
                    assert(0 <= k < e + 1);
                }
                if exists|k: int|
                    0 <= k < e + 1 && ((#[trigger] g.edges@[k]).source_table_id@ == id@
                        && g.edges@[k].target_table_id@ == y || g.edges@[k].target_table_id@ == id@
                        && g.edges@[k].source_table_id@ == y) {
                    let k = choose|k: int|
                        0 <= k < e + 1 && ((#[trigger] g.edges@[k]).source_table_id@ == id@
                            && g.edges@[k].target_table_id@ == y || g.edges@[k].target_table_id@ == id@
                            && g.edges@[k].source_table_id@ == y);
                    if k < e {
                        assert(has_id(before, y));
                    }
                }
            }
        }
        e += 1;
    }
    out
}

/// The adjacency the layout groups by: an entry for each box, listing the
/// ids edges join it to.
fn undirected(g: &DiagramGraph) -> (r: Vec<(String, Vec<String>)>)
    ensures
        adj_rel(r@) =~= graph_rel(*g),
{
    let mut out: Vec<(String, Vec<String>)> = Vec::new();
    let mut i: usize = 0;
    while i < g.tables.len()
        invariant
            i <= g.tables@.len(),
            out@.len() == i,
            forall|k: int|
                0 <= k < i ==> (#[trigger] out@[k]).0@ == g.tables@[k].id@ && forall|y: Seq<char>|
                    #[trigger] has_id(out@[k].1@, y) == joined(*g, g.tables@[k].id@, y),
        decreases g.tables@.len() - i,
    {
        let id = &g.tables[i].id;
        out.push((id.clone(), joined_ids(g, id)));
        i += 1;
    }
    proof {
        assert forall|x: Seq<char>, y: Seq<char>| #[trigger] adj_rel(out@)(x, y) == graph_rel(*g)(x, y) by {
            let pred = entry_for(x);
            if first_where(out@, pred) is Some {
                lemma_first_some(out@, pred);
                let k = first_where(out@, pred)->0;
                assert(g.tables@[k].id@ == x);
            } else {
                assert(neighbours(out@, x) =~= Seq::<String>::empty());
                if is_table(*g, x) {
                    let k = choose|k: int| 0 <= k < g.tables@.len() && (#[trigger] g.tables@[k]).id@ == x;
                    assert(pred(out@[k]));
                    lemma_some_entry(out@, pred, k);
                }
            }
        }
    }
    out
}

proof fn lemma_some_entry<A>(s: Seq<A>, p: spec_fn(A) -> bool, j: int)
    requires
        0 <= j < s.len(),
        p(s[j]),
    ensures
        first_where(s, p) is Some,
    decreases j,
{
    if exists|k: int| 0 <= k < j && p(s[k]) {
        let k = choose|k: int| 0 <= k < j && p(s[k]);
        lemma_some_entry(s, p, k);
    } else {
        lemma_first_found(s, p, j);
    }
}

/// `id` names a box of the diagram.
fn has_table(g: &DiagramGraph, id: &str) -> (r: bool)
    ensures
        r == is_table(*g, id@),
{
    let mut i: usize = 0;
    while i < g.tables.len()
        invariant
            i <= g.tables@.len(),
            forall|k: int| 0 <= k < i ==> (#[trigger] g.tables@[k]).id@ != id@,
        decreases g.tables@.len() - i,
    {
        if str_eq(g.tables[i].id.as_str(), id) {
            return true;
        }
        i += 1;
    }
    false
}

/// The parents of each member of a group, as places in the group.
fn group_parents(g: &DiagramGraph, grp: &Vec<String>) -> (par: Vec<Vec<usize>>)
    ensures
        parents_listed(*g, grp@, par@),
{
    let n = grp.len();
    let mut par: Vec<Vec<usize>> = Vec::new();
    let mut ci: usize = 0;
    while ci < n
        invariant
            n == grp@.len(),
            ci <= n,
            par@.len() == ci,
            forall|i: int, x: int|
                0 <= i < ci && 0 <= x < n ==> (#[trigger] par@[i]@.contains(x as usize) == parent_of(
                    *g,
                    grp@[i]@,
                    grp@[x]@,
                )),
            forall|i: int, j: int| 0 <= i < ci && 0 <= j < par@[i]@.len() ==> #[trigger] par@[i]@[j] < n,
        decreases n - ci,
    {
        let child = &grp[ci];
        let mut row: Vec<usize> = Vec::new();
        let mut e: usize = 0;
        while e < g.edges.len()
            invariant
                n == grp@.len(),
                ci < n,
                *child == grp@[ci as int],
                e <= g.edges@.len(),
                forall|j: int| 0 <= j < row@.len() ==> #[trigger] row@[j] < n,
                forall|x: int|
                    0 <= x < n ==> (#[trigger] row@.contains(x as usize) == (is_table(*g, grp@[x]@) && exists|k: int|
                        0 <= k < e && !(#[trigger] g.edges@[k]).is_self_referential
                            && g.edges@[k].source_table_id@ == child@ && g.edges@[k].target_table_id@
                            == grp@[x]@)),
            decreases g.edges@.len() - e,
        {
            let edge = &g.edges[e];
            let ghost before = row@;
            if !edge.is_self_referential && str_eq(edge.source_table_id.as_str(), child.as_str()) && has_table(
                g,
                edge.target_table_id.as_str(),
            ) {
                let mut pi: usize = 0;
                while pi < n
                    invariant
                        n == grp@.len(),
                        pi <= n,
                        forall|j: int| 0 <= j < row@.len() ==> #[trigger] row@[j] < n,
                        forall|x: int|
                            0 <= x < n ==> (#[trigger] row@.contains(x as usize) == (before.contains(x as usize) || (
                            x < pi && grp@[x]@ == edge.target_table_id@))),
                    decreases n - pi,
                {
                    let ghost r0 = row@;
                    if str_eq(grp[pi].as_str(), edge.target_table_id.as_str()) {
                        row.push(pi);
                    }
                    proof {
                        assert forall|x: int| 0 <= x < n implies (#[trigger] row@.contains(x as usize) == (
                        before.contains(x as usize) || (x < pi + 1 && grp@[x]@ == edge.target_table_id@))) by {
                            if row@ != r0 {
                                if row@.contains(x as usize) && x != pi {
                                    let j = choose|j: int| 0 <= j < row@.len() && row@[j] == x as usize;
                                    if j < r0.len() {
                                        assert(r0[j] == row@[j]);
                                    }
                                }
                                if r0.contains(x as usize) {
                                    let j = choose|j: int| 0 <= j < r0.len() && r0[j] == x as usize;
                                    assert(row@[j] == r0[j]);
                                }
                                if x == pi {
                                    assert(row@[r0.len() as int] == pi);
                                }
                            }
                        }
                    }
                    pi += 1;
                }
            }
            proof {
                assert forall|x: int| 0 <= x < n implies (#[trigger] row@.contains(x as usize) == (is_table(
                    *g,
                    grp@[x]@,
                ) && exists|k: int|
                    0 <= k < e + 1 && !(#[trigger] g.edges@[k]).is_self_referential && g.edges@[k].source_table_id@
                        == child@ && g.edges@[k].target_table_id@ == grp@[x]@)) by {
                    if exists|k: int|
                        0 <= k < e + 1 && !(#[trigger] g.edges@[k]).is_self_referential
                            && g.edges@[k].source_table_id@ == child@ && g.edges@[k].target_table_id@ == grp@[x]@ {
                        let k = choose|k: int|
                            0 <= k < e + 1 && !(#[trigger] g.edges@[k]).is_self_referential
                                && g.edges@[k].source_table_id@ == child@ && g.edges@[k].target_table_id@
                                == grp@[x]@;
                        if k < e {
                            assert(exists|kk: int|
                                0 <= kk < e && !(#[trigger] g.edges@[kk]).is_self_referential
                                    && g.edges@[kk].source_table_id@ == child@ && g.edges@[kk].target_table_id@
                                    == grp@[x]@);
                        }
                    }
                }
            }
            e += 1;
        }
        let ghost p0 = par@;
        par.push(row);
        proof {
            assert forall|i: int, x: int|
                0 <= i < ci + 1 && 0 <= x < n implies (#[trigger] par@[i]@.contains(x as usize) == parent_of(
                *g,
                grp@[i]@,
                grp@[x]@,
            )) by {
                if i < ci {
                    assert(par@[i] == p0[i]);
                }
            }
            assert forall|i: int, j: int| 0 <= i < ci + 1 && 0 <= j < par@[i]@.len() implies #[trigger] par@[i]@[j]
                < n by {
                if i < ci {
                    assert(par@[i] == p0[i]);
                }
            }
        }
        ci += 1;
    }
    proof {
        assert(parents_valid(par@));
    }
    par
}

/// The default layout: the connected groups side by side, in the order of
/// their first ids, `180` apart; in each group a box lies one layer right of
/// the parents it references (`280` a layer), under the boxes of its layer
/// that sort before it.
pub fn default_layout(graph: &DiagramGraph) -> (r: Vec<(String, Point)>)
    ensures
        exists|groups: Seq<Vec<String>>, par: Seq<Seq<Vec<usize>>>, layers: Seq<Vec<u64>>|
            #[trigger] layout_of(*graph, groups, par, layers, r@),
{
    let mut ids: Vec<String> = Vec::new();
    let mut i: usize = 0;
    while i < graph.tables.len()
        invariant
            i <= graph.tables@.len(),
            ids@.len() == i,
            forall|k: int| 0 <= k < i ==> (#[trigger] ids@[k])@ == graph.tables@[k].id@,
        decreases graph.tables@.len() - i,
    {
        ids.push(graph.tables[i].id.clone());
        i += 1;
    }
    let adj = undirected(graph);
    let groups = collect_components(&ids, &adj);
    proof {
        let t = table_ids_spec(*graph);
        assert forall|k: int| 0 <= k < ids@.len() implies (#[trigger] ids@[k]).key_view() == t[k].key_view() by {}
        lemma_sorted_same_keys(ids@, t);
        assert(views(sorted_by_key(ids@)) =~= views(sorted_by_key(t)));
        assert(adj_rel(adj@) == graph_rel(*graph));
        assert(components_spec(ids@, adj_rel(adj@)) == layout_groups(*graph));
    }
    let mut pars: Vec<Vec<Vec<usize>>> = Vec::new();
    let mut layers: Vec<Vec<u64>> = Vec::new();
    let mut c: usize = 0;
    while c < groups.len()
        invariant
            c <= groups@.len(),
            pars@.len() == c,
            layers@.len() == c,
            forall|j: int|
                0 <= j < c ==> parents_listed(*graph, (#[trigger] groups@[j])@, pars@[j]@) && layers_solve(
                    pars@[j]@,
                    layers@[j]@,
                ),
        decreases groups@.len() - c,
    {
        let par = group_parents(graph, &groups[c]);
        let lay = assign_layers(&par);
        pars.push(par);
        layers.push(lay);
        c += 1;
    }
    proof {
        assert forall|j: int| 0 <= j < groups@.len() implies (#[trigger] groups@[j])@.len() == layers@[j]@.len() by {
            assert(parents_listed(*graph, groups@[j]@, pars@[j]@));
        }
    }
    let r = place(graph, &groups, &layers);
    let ghost par_views = pars@.map_values(|v: Vec<Vec<usize>>| v@);
    assert(layout_of(*graph, groups@, par_views, layers@, r@));
    r
}

proof fn lemma_max_layer_above(ps: Seq<usize>, layers: Seq<u64>, allowed: spec_fn(int) -> bool, k: int)
    requires
        0 <= k < ps.len(),
        allowed(ps[k] as int),
    ensures
        max_layer(ps, layers, allowed) is Some,
        max_layer(ps, layers, allowed)->0 >= layers[ps[k] as int],
    decreases ps.len(),
{
    if k < ps.len() - 1 {
        assert(ps.drop_last()[k] == ps[k]);
        lemma_max_layer_above(ps.drop_last(), layers, allowed, k);
    } else {
        assert(ps.last() == ps[k]);
    }
}

/// Parents come before their children: a box whose parents all settle lies
/// in a later layer than each of them, and so does every other box than
/// each parent placed before it.
pub proof fn law_parents_before_children(par: Seq<Vec<usize>>, lay: Seq<u64>, i: int, k: int)
    requires
        layers_solve(par, lay),
        0 <= i < lay.len(),
        0 <= k < par[i]@.len(),
        ordered(par, i) || placed_before(par, i)(par[i]@[k] as int),
    ensures
        lay[i] > lay[par[i]@[k] as int],
{
    if ordered(par, i) {
        lemma_max_layer_above(par[i]@, lay, any_parent(), k);
    } else {
        lemma_max_layer_above(par[i]@, lay, placed_before(par, i), k);
    }
}

} // verus!
