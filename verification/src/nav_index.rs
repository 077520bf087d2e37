//! The navigator's filter index.
//!
//! Each connection's schema is flattened once, when it loads, into
//! lower-cased table names and lower-cased column names joined by `\n`, plus
//! an ordered list of every such name with the tables that carry it. A
//! filter that is the start of a name is then a range scan of that list; the
//! rest is a substring test over names that are already lower-cased.
use crate::bytes::{bytes_equal, bytes_less, bytes_starts_with, contains_bytes, copy_bytes, lemma_lex_irreflexive, lemma_lex_total, lemma_lex_transitive, lemma_prefix_not_below, lemma_prefix_run_ends, lex_lt, occurs_at, starts_with_bytes, str_contains, str_eq};
use crate::models::{Column, Database, Schema, SchemaTree, Table};
use crate::seqs::{first_where, lemma_first_found, lemma_first_none};
use crate::text::{bytes_of, lemma_chars_of_bytes, push_char, utf8};
use crate::unicode::{str_lower, to_lowercase};
use std::sync::Arc;
use vstd::prelude::*;
use vstd::seq_lib::lemma_seq_contains_after_push;
use vstd::string::StringExecFns;

verus! {

broadcast use vstd::string::group_string_axioms;

/// Where a table sits in a schema tree: `(database, schema, table)`
/// positions, with [`NONE`] where that level does not exist (MySQL without
/// databases, SQLite).
pub type TableKey = (u32, u32, u32);

pub const NONE: u32 = 0xffff_ffff;

// ─── What the index holds ──────────────────────────────────────────────────

/// The tables of one list, keyed under database `db` and schema `sc`.
pub open spec fn keyed(tables: Seq<Table>, db: u32, sc: u32) -> Seq<(TableKey, Table)> {
    Seq::new(tables.len(), |i: int| ((db, sc, i as u32), tables[i]))
}

/// The tables of the first `n` schemas, in order.
pub open spec fn schema_entries(schemas: Seq<Schema>, db: u32, n: int) -> Seq<(TableKey, Table)>
    decreases n,
{
    if n <= 0 {
        Seq::empty()
    } else {
        schema_entries(schemas, db, n - 1) + keyed(schemas[n - 1].tables@, db, (n - 1) as u32)
    }
}

/// The tables of the first `n` databases, in order.
pub open spec fn database_entries(dbs: Seq<Database>, n: int) -> Seq<(TableKey, Table)>
    decreases n,
{
    if n <= 0 {
        Seq::empty()
    } else {
        database_entries(dbs, n - 1) + schema_entries(
            dbs[n - 1].schemas@,
            (n - 1) as u32,
            dbs[n - 1].schemas@.len() as int,
        )
    }
}

/// Every table of a tree with its key: under databases when there are any,
/// else under schemas, else the flat list.
pub open spec fn tree_entries(t: SchemaTree) -> Seq<(TableKey, Table)> {
    if t.databases@.len() > 0 {
        database_entries(t.databases@, t.databases@.len() as int)
    } else if t.schemas@.len() > 0 {
        schema_entries(t.schemas@, NONE, t.schemas@.len() as int)
    } else {
        keyed(t.tables@, NONE, NONE)
    }
}

/// The lower-cased names of the first `n` columns, joined by `\n` (a
/// separator goes in only once something has been written).
pub open spec fn joined_columns(cols: Seq<Column>, n: int) -> Seq<char>
    decreases n,
{
    if n <= 0 {
        Seq::empty()
    } else {
        let prev = joined_columns(cols, n - 1);
        if prev.len() == 0 {
            str_lower(cols[n - 1].name@)
        } else {
            prev.push('\n') + str_lower(cols[n - 1].name@)
        }
    }
}

/// What the index keeps of a table: its key, lower-cased name and joined columns.
pub open spec fn indexed(e: (TableKey, Table)) -> (TableKey, Seq<char>, Seq<char>) {
    (e.0, str_lower(e.1.name@), joined_columns(e.1.columns@, e.1.columns@.len() as int))
}

/// The filter (as bytes) occurs in the table's name or in its columns.
pub open spec fn text_hit(e: (TableKey, Seq<char>, Seq<char>), f: Seq<u8>) -> bool {
    contains_bytes(utf8(e.1), f) || contains_bytes(utf8(e.2), f)
}

/// The keys of the first `n` entries the filter hits, in order.
pub open spec fn hit_keys(es: Seq<(TableKey, Seq<char>, Seq<char>)>, f: Seq<u8>, n: int) -> Seq<TableKey>
    decreases n,
{
    if n <= 0 {
        Seq::empty()
    } else if text_hit(es[n - 1], f) {
        hit_keys(es, f, n - 1).push(es[n - 1].0)
    } else {
        hit_keys(es, f, n - 1)
    }
}

struct IndexedTable {
    key: TableKey,
    /// Lower-cased table name.
    name: String,
    /// Lower-cased column names, joined by `\n`.
    columns: String,
}

spec fn table_view(t: IndexedTable) -> (TableKey, Seq<char>, Seq<char>) {
    (t.key, t.name@, t.columns@)
}

spec fn tables_view(ts: Seq<IndexedTable>) -> Seq<(TableKey, Seq<char>, Seq<char>)> {
    ts.map_values(|t: IndexedTable| table_view(t))
}

spec fn names_view(ns: Seq<(Vec<u8>, Vec<usize>)>) -> Seq<(Seq<u8>, Seq<usize>)> {
    ns.map_values(|e: (Vec<u8>, Vec<usize>)| (e.0@, e.1@))
}

/// `name` is the table's name or a piece of its columns.
spec fn names_table(name: Seq<u8>, e: (TableKey, Seq<char>, Seq<char>)) -> bool {
    name == utf8(e.1) || contains_bytes(utf8(e.2), name)
}

/// The names are strictly ascending and each lists only tables that carry it.
spec fn names_ok(ns: Seq<(Seq<u8>, Seq<usize>)>, es: Seq<(TableKey, Seq<char>, Seq<char>)>) -> bool {
    &&& ascending(ns)
    &&& forall|i: int, k: int|
        0 <= i < ns.len() && 0 <= k < ns[i].1.len() ==> #[trigger] ns[i].1[k] < es.len()
            && names_table(ns[i].0, es[ns[i].1[k] as int])
}

/// The tables and the ordered name list, always consistent.
struct IndexData {
    tables: Vec<IndexedTable>,
    /// Lower-cased table and column names, ascending, each with the slots of
    /// the tables that carry it.
    by_name: Vec<(Vec<u8>, Vec<usize>)>,
}

impl IndexData {
    #[verifier::type_invariant]
    spec fn inv(self) -> bool {
        names_ok(names_view(self.by_name@), tables_view(self.tables@))
    }
}

/// One connection's searchable names.
pub struct SchemaIndex {
    pub conn_id: String,
    /// Bumped whenever the connection's schema is replaced, so a search that
    /// was in flight over the old one can be discarded.
    pub generation: u64,
    data: IndexData,
}

// ─── Building ──────────────────────────────────────────────────────────────

fn joined_lower(cols: &Vec<Column>) -> (r: String)
    ensures
        r@ == joined_columns(cols@, cols@.len() as int),
{
    let mut columns = String::new();
    let mut i: usize = 0;
    while i < cols.len()
        invariant
            i <= cols.len(),
            columns@ == joined_columns(cols@, i as int),
        decreases cols.len() - i,
    {
        if !columns.as_str().is_empty() {
            push_char(&mut columns, '\n');
        }
        let lower = to_lowercase(cols[i].name.as_str());
        columns.append(lower.as_str());
        i += 1;
    }
    columns
}

fn indexed_table(key: TableKey, t: &Table) -> (r: IndexedTable)
    ensures
        table_view(r) == indexed((key, *t)),
{
    IndexedTable { key, name: to_lowercase(t.name.as_str()), columns: joined_lower(&t.columns) }
}

fn push_tables(out: &mut Vec<IndexedTable>, tables: &Vec<Table>, db: u32, sc: u32)
    ensures
        tables_view(final(out)@) == tables_view(old(out)@) + keyed(tables@, db, sc).map_values(
            |e: (TableKey, Table)| indexed(e),
        ),
{
    let ghost start = tables_view(out@);
    let mut ti: usize = 0;
    while ti < tables.len()
        invariant
            ti <= tables.len(),
            tables_view(out@) == start + keyed(tables@, db, sc).take(ti as int).map_values(
                |e: (TableKey, Table)| indexed(e),
            ),
        decreases tables.len() - ti,
    {
        #[verifier::truncate]
        let key: TableKey = (db, sc, ti as u32);
        let t = indexed_table(key, &tables[ti]);
        let ghost before = out@;
        out.push(t);
        proof {
            assert(tables_view(out@) =~= tables_view(before).push(table_view(t)));
            assert(keyed(tables@, db, sc).take(ti + 1) =~= keyed(tables@, db, sc).take(
                ti as int,
            ).push(keyed(tables@, db, sc)[ti as int]));
            assert(tables_view(out@) =~= start + keyed(tables@, db, sc).take(ti + 1).map_values(
                |e: (TableKey, Table)| indexed(e),
            ));
        }
        ti += 1;
    }
    proof {
        assert(keyed(tables@, db, sc).take(tables@.len() as int) =~= keyed(tables@, db, sc));
    }
}

fn push_schemas(out: &mut Vec<IndexedTable>, schemas: &Vec<Schema>, db: u32)
    ensures
        tables_view(final(out)@) == tables_view(old(out)@) + schema_entries(
            schemas@,
            db,
            schemas@.len() as int,
        ).map_values(|e: (TableKey, Table)| indexed(e)),
{
    let ghost start = tables_view(out@);
    let mut si: usize = 0;
    while si < schemas.len()
        invariant
            si <= schemas.len(),
            tables_view(out@) == start + schema_entries(schemas@, db, si as int).map_values(
                |e: (TableKey, Table)| indexed(e),
            ),
        decreases schemas.len() - si,
    {
        #[verifier::truncate]
        let sc: u32 = si as u32;
        push_tables(out, &schemas[si].tables, db, sc);
        proof {
            assert(schema_entries(schemas@, db, si + 1).map_values(|e: (TableKey, Table)| indexed(e))
                =~= schema_entries(schemas@, db, si as int).map_values(
                |e: (TableKey, Table)| indexed(e),
            ) + keyed(schemas@[si as int].tables@, db, sc).map_values(
                |e: (TableKey, Table)| indexed(e),
            ));
        }
        si += 1;
    }
}

/// The names are strictly ascending.
spec fn ascending(ns: Seq<(Seq<u8>, Seq<usize>)>) -> bool {
    forall|i: int, j: int| 0 <= i < j < ns.len() ==> lex_lt(#[trigger] ns[i].0, #[trigger] ns[j].0)
}

/// The first position whose name is not below `x`.
fn lower_bound(names: &Vec<(Vec<u8>, Vec<usize>)>, x: &[u8]) -> (pos: usize)
    requires
        ascending(names_view(names@)),
    ensures
        pos <= names@.len(),
        forall|i: int| 0 <= i < pos ==> lex_lt(#[trigger] names_view(names@)[i].0, x@),
        forall|i: int| pos <= i < names@.len() ==> !lex_lt(#[trigger] names_view(names@)[i].0, x@),
{
    let ghost nv = names_view(names@);
    let mut lo: usize = 0;
    let mut hi: usize = names.len();
    while lo < hi
        invariant
            lo <= hi <= names@.len(),
            nv == names_view(names@),
            ascending(nv),
            forall|i: int| 0 <= i < lo ==> lex_lt(#[trigger] nv[i].0, x@),
            forall|i: int| hi <= i < names@.len() ==> !lex_lt(#[trigger] nv[i].0, x@),
        decreases hi - lo,
    {
        let mid = lo + (hi - lo) / 2;
        assert(nv[mid as int].0 == names@[mid as int].0@);
        if bytes_less(names[mid].0.as_slice(), x) {
            proof {
                assert forall|i: int| 0 <= i < mid + 1 implies lex_lt(#[trigger] nv[i].0, x@) by {
                    if i < mid {
                        lemma_lex_transitive(nv[i].0, nv[mid as int].0, x@);
                    }
                }
            }
            lo = mid + 1;
        } else {
            proof {
                assert forall|i: int| mid <= i < names@.len() implies !lex_lt(#[trigger] nv[i].0, x@) by {
                    if i > mid && lex_lt(nv[i].0, x@) {
                        lemma_lex_transitive(nv[mid as int].0, nv[i].0, x@);
                    }
                }
            }
            hi = mid;
        }
    }
    lo
}

/// A `\n` byte.
spec fn newline() -> spec_fn(u8) -> bool {
    |c: u8| c == 10u8
}

/// The non-empty pieces of `b` between `\n`s, in order: the piece before the
/// first `\n` (when it is not empty), then the pieces after it.
spec fn pieces(b: Seq<u8>) -> Seq<Seq<u8>>
    decreases b.len(),
{
    match first_where(b, newline()) {
        None => if b.len() > 0 {
            seq![b]
        } else {
            Seq::empty()
        },
        Some(i) => {
            proof {
                crate::seqs::lemma_first_some(b, newline());
            }
            (if i > 0 {
                seq![b.take(i)]
            } else {
                Seq::empty()
            }) + pieces(b.skip(i + 1))
        },
    }
}

/// The names a table is listed under, in order: its name, then each piece of
/// its columns.
spec fn table_names(e: (TableKey, Seq<char>, Seq<char>)) -> Seq<Seq<u8>> {
    seq![utf8(e.1)] + pieces(utf8(e.2))
}

/// Each name listed for table `slot`, paired with the slot.
spec fn listed_as(names: Seq<Seq<u8>>, slot: usize) -> Seq<(Seq<u8>, usize)> {
    names.map_values(|n: Seq<u8>| (n, slot))
}

/// Every name of the first `k` tables with its slot, table by table.
spec fn listings(es: Seq<(TableKey, Seq<char>, Seq<char>)>, k: int) -> Seq<(Seq<u8>, usize)>
    decreases k,
{
    if k <= 0 {
        Seq::empty()
    } else {
        listings(es, k - 1) + listed_as(table_names(es[k - 1]), (k - 1) as usize)
    }
}

/// The slots listed under `n`, in the order they were listed.
spec fn slots_under(ls: Seq<(Seq<u8>, usize)>, n: Seq<u8>) -> Seq<usize>
    decreases ls.len(),
{
    if ls.len() == 0 {
        Seq::empty()
    } else if ls.last().0 == n {
        slots_under(ls.drop_last(), n).push(ls.last().1)
    } else {
        slots_under(ls.drop_last(), n)
    }
}

/// The name list holds exactly the names of `ls`, each once, with the slots
/// listed under it.
spec fn lists_exactly(ns: Seq<(Seq<u8>, Seq<usize>)>, ls: Seq<(Seq<u8>, usize)>) -> bool {
    &&& forall|i: int| 0 <= i < ns.len() ==> (#[trigger] ns[i]).1 == slots_under(ls, ns[i].0)
    &&& forall|n: Seq<u8>| #[trigger] slots_under(ls, n).len() > 0 ==> has_name(ns, n)
}

/// Some entry of the list is named `n`.
spec fn has_name(ns: Seq<(Seq<u8>, Seq<usize>)>, n: Seq<u8>) -> bool {
    exists|i: int| 0 <= i < ns.len() && (#[trigger] ns[i]).0 == n
}

/// The list after adding `slot` under `name`: the entry named `name` takes
/// the slot at its end, or a new entry for it comes in.
spec fn name_added(
    ns: Seq<(Seq<u8>, Seq<usize>)>,
    nv: Seq<(Seq<u8>, Seq<usize>)>,
    name: Seq<u8>,
    slot: usize,
) -> bool {
    &&& has_name(ns, name) ==> exists|i: int|
        0 <= i < ns.len() && (#[trigger] ns[i]).0 == name && nv == ns.update(i, (name, ns[i].1.push(slot)))
    &&& !has_name(ns, name) ==> exists|p: int| 0 <= p <= ns.len() && nv == ns.insert(p, (name, seq![slot]))
}

/// Adding a name keeps the list exact.
proof fn lemma_lists_add(
    ns: Seq<(Seq<u8>, Seq<usize>)>,
    nv: Seq<(Seq<u8>, Seq<usize>)>,
    ls: Seq<(Seq<u8>, usize)>,
    name: Seq<u8>,
    slot: usize,
)
    requires
        ascending(ns),
        lists_exactly(ns, ls),
        name_added(ns, nv, name, slot),
    ensures
        lists_exactly(nv, ls.push((name, slot))),
{
    let l2 = ls.push((name, slot));
    assert(l2.drop_last() =~= ls);
    assert forall|n: Seq<u8>| #[trigger] slots_under(l2, n) == if n == name {
        slots_under(ls, n).push(slot)
    } else {
        slots_under(ls, n)
    } by {}
    if has_name(ns, name) {
        let i = choose|i: int|
            0 <= i < ns.len() && (#[trigger] ns[i]).0 == name && nv == ns.update(i, (name, ns[i].1.push(slot)));
        assert forall|j: int| 0 <= j < nv.len() implies (#[trigger] nv[j]).1 == slots_under(l2, nv[j].0) by {
            if j != i {
                assert(nv[j] == ns[j]);
                if ns[j].0 == name {
                    if j < i {
                        assert(lex_lt(ns[j].0, ns[i].0));
                    } else {
                        assert(lex_lt(ns[i].0, ns[j].0));
                    }
                    lemma_lex_irreflexive(name);
                }
            }
        }
        assert forall|n: Seq<u8>| #[trigger] slots_under(l2, n).len() > 0 implies has_name(nv, n) by {
            if n == name {
                assert(nv[i].0 == n);
            } else {
                assert(slots_under(ls, n).len() > 0);
                let j = choose|j: int| 0 <= j < ns.len() && (#[trigger] ns[j]).0 == n;
                assert(nv[j] == ns[j]);
            }
        }
    } else {
        let p = choose|p: int| 0 <= p <= ns.len() && nv == ns.insert(p, (name, seq![slot]));
        assert(slots_under(ls, name).len() == 0);
        assert(slots_under(ls, name) =~= Seq::<usize>::empty());
        assert forall|j: int| 0 <= j < nv.len() implies (#[trigger] nv[j]).1 == slots_under(l2, nv[j].0) by {
            if j < p {
                assert(nv[j] == ns[j]);
                assert(ns[j].0 != name);
            } else if j > p {
                assert(nv[j] == ns[j - 1]);
                assert(ns[j - 1].0 != name);
            } else {
                assert(seq![slot] =~= Seq::<usize>::empty().push(slot));
            }
        }
        assert forall|n: Seq<u8>| #[trigger] slots_under(l2, n).len() > 0 implies has_name(nv, n) by {
            if n == name {
                assert(nv[p].0 == n);
            } else {
                assert(slots_under(ls, n).len() > 0);
                let j = choose|j: int| 0 <= j < ns.len() && (#[trigger] ns[j]).0 == n;
                if j < p {
                    assert(nv[j] == ns[j]);
                } else {
                    assert(nv[j + 1] == ns[j]);
                }
            }
        }
    }
}

/// Adds `slot` under `name`, keeping the names ascending and distinct.
fn insert_name(
    names: &mut Vec<(Vec<u8>, Vec<usize>)>,
    name: Vec<u8>,
    slot: usize,
    Ghost(es): Ghost<Seq<(TableKey, Seq<char>, Seq<char>)>>,
)
    requires
        names_ok(names_view(old(names)@), es),
        slot < es.len(),
        names_table(name@, es[slot as int]),
    ensures
        names_ok(names_view(final(names)@), es),
        name_added(names_view(old(names)@), names_view(final(names)@), name@, slot),
{
    let ghost ns = names_view(names@);
    let pos = lower_bound(names, name.as_slice());
    proof {
        if pos < names@.len() {
            assert(ns[pos as int].0 == names@[pos as int].0@);
        }
    }
    if pos < names.len() && bytes_equal(names[pos].0.as_slice(), name.as_slice()) {
        let (key, mut slots) = names.remove(pos);
        slots.push(slot);
        names.insert(pos, (key, slots));
        proof {
            let nv = names_view(names@);
            assert forall|i: int| 0 <= i < nv.len() implies #[trigger] nv[i].0 == ns[i].0 by {}
            assert(nv =~= ns.update(pos as int, (name@, ns[pos as int].1.push(slot))));
            assert(ns[pos as int].0 == name@);
            assert(has_name(ns, name@));
            assert forall|i: int, k: int|
                0 <= i < nv.len() && 0 <= k < nv[i].1.len() implies #[trigger] nv[i].1[k] < es.len()
                && names_table(nv[i].0, es[nv[i].1[k] as int]) by {
                if i != pos {
                    assert(nv[i] == ns[i]);
                } else if k < ns[i].1.len() {
                    assert(nv[i].1[k] == ns[i].1[k]);
                }
            }
        }
    } else {
        let mut slots: Vec<usize> = Vec::new();
        slots.push(slot);
        proof {
            if pos < names@.len() {
                lemma_lex_total(ns[pos as int].0, name@);
            }
        }
        let ghost nm = name@;
        names.insert(pos, (name, slots));
        proof {
            let nv = names_view(names@);
            assert(nv =~= ns.insert(pos as int, (nm, seq![slot])));
            assert forall|j: int| 0 <= j < ns.len() implies (#[trigger] ns[j]).0 != nm by {
                if j < pos {
                    lemma_lex_irreflexive(nm);
                } else if j > pos {
                    assert(lex_lt(ns[pos as int].0, ns[j].0));
                } else {
                    assert(ns[pos as int].0 == names_view(old(names)@)[pos as int].0);
                }
            }
            assert(!has_name(ns, nm));
            assert forall|i: int, j: int| 0 <= i < j < nv.len() implies lex_lt(
                #[trigger] nv[i].0,
                #[trigger] nv[j].0,
            ) by {
                if j < pos {
                    assert(nv[i] == ns[i] && nv[j] == ns[j]);
                } else if j == pos {
                    assert(nv[i] == ns[i]);
                } else if i == pos {
                    assert(nv[j] == ns[j - 1]);
                    if j - 1 > pos {
                        lemma_lex_transitive(name@, ns[pos as int].0, ns[j - 1].0);
                    }
                } else if i < pos {
                    assert(nv[i] == ns[i] && nv[j] == ns[j - 1]);
                } else {
                    assert(nv[i] == ns[i - 1] && nv[j] == ns[j - 1]);
                }
            }
            assert forall|i: int, k: int|
                0 <= i < nv.len() && 0 <= k < nv[i].1.len() implies #[trigger] nv[i].1[k] < es.len()
                && names_table(nv[i].0, es[nv[i].1[k] as int]) by {
                if i < pos {
                    assert(nv[i] == ns[i]);
                } else if i > pos {
                    assert(nv[i] == ns[i - 1]);
                }
            }
        }
    }
}

/// Every table name, and every non-empty `\n`-separated piece of every
/// table's columns, with the slots of the tables that carry it.
fn name_list(tables: &Vec<IndexedTable>) -> (r: Vec<(Vec<u8>, Vec<usize>)>)
    ensures
        names_ok(names_view(r@), tables_view(tables@)),
        lists_exactly(names_view(r@), listings(tables_view(tables@), tables@.len() as int)),
{
    let ghost es = tables_view(tables@);
    let mut names: Vec<(Vec<u8>, Vec<usize>)> = Vec::new();
    let mut slot: usize = 0;
    proof {
        assert(names_view(names@) =~= Seq::<(Seq<u8>, Seq<usize>)>::empty());
        assert forall|n: Seq<u8>| #[trigger] slots_under(listings(es, 0), n).len() > 0 implies has_name(
            names_view(names@),
            n,
        ) by {
            assert(listings(es, 0) =~= Seq::<(Seq<u8>, usize)>::empty());
        }
    }
    while slot < tables.len()
        invariant
            slot <= tables.len(),
            es == tables_view(tables@),
            names_ok(names_view(names@), es),
            lists_exactly(names_view(names@), listings(es, slot as int)),
        decreases tables.len() - slot,
    {
        let t = &tables[slot];
        let tname = t.name.as_str();
        let tcols = t.columns.as_str();
        proof {
            lemma_chars_of_bytes(tname);
            lemma_chars_of_bytes(tcols);
        }
        let nb = tname.as_bytes();
        let whole = copy_bytes(nb, 0, nb.len());
        proof {
            assert(whole@ =~= utf8(es[slot as int].1));
        }
        let ghost before = names_view(names@);
        let ghost mut ls = listings(es, slot as int).push((whole@, slot));
        insert_name(&mut names, whole, slot, Ghost(es));
        proof {
            lemma_lists_add(before, names_view(names@), listings(es, slot as int), utf8(es[slot as int].1), slot);
        }
        let cb = tcols.as_bytes();
        let ghost b = cb@;
        let ghost mut done: Seq<Seq<u8>> = Seq::empty();
        let mut start: usize = 0;
        let mut pos: usize = 0;
        proof {
            assert(b.skip(0) =~= b);
            assert(pieces(b) == done + pieces(b.skip(0)));
            assert(ls =~= listings(es, slot as int) + listed_as(seq![utf8(es[slot as int].1)] + done, slot));
        }
        while pos < cb.len()
            invariant
                slot < tables.len(),
                es == tables_view(tables@),
                cb@ == utf8(es[slot as int].2),
                b == cb@,
                start <= pos <= cb.len(),
                names_ok(names_view(names@), es),
                ls == listings(es, slot as int) + listed_as(seq![utf8(es[slot as int].1)] + done, slot),
                lists_exactly(names_view(names@), ls),
                pieces(b) == done + pieces(b.skip(start as int)),
                forall|k: int| start <= k < pos ==> b[k] != 10u8,
            decreases cb.len() - pos,
        {
            if cb[pos] == 10u8 {
                let ghost rest = b.skip(start as int);
                proof {
                    assert forall|j: int| 0 <= j < pos - start implies !(newline())(#[trigger] rest[j]) by {
                        assert(rest[j] == b[start + j]);
                    }
                    assert(rest[pos - start] == b[pos as int]);
                    lemma_first_found(rest, newline(), pos - start);
                    assert(rest.skip(pos - start + 1) =~= b.skip(pos + 1));
                    assert(rest.take(pos - start) =~= b.subrange(start as int, pos as int));
                }
                if pos > start {
                    let piece = copy_bytes(cb, start, pos);
                    proof {
                        assert(occurs_at(cb@, piece@, start as int));
                    }
                    let ghost nb4 = names_view(names@);
                    insert_name(&mut names, piece, slot, Ghost(es));
                    proof {
                        lemma_lists_add(nb4, names_view(names@), ls, piece@, slot);
                        let d2 = done.push(piece@);
                        assert(ls.push((piece@, slot)) =~= listings(es, slot as int) + listed_as(
                            seq![utf8(es[slot as int].1)] + d2,
                            slot,
                        ));
                        assert(pieces(b) =~= d2 + pieces(b.skip(pos + 1)));
                        ls = ls.push((piece@, slot));
                        done = d2;
                    }
                } else {
                    proof {
                        assert(pieces(b) =~= done + pieces(b.skip(pos + 1)));
                    }
                }
                start = pos + 1;
            }
            pos += 1;
        }
        let ghost rest = b.skip(start as int);
        proof {
            assert forall|j: int| 0 <= j < rest.len() implies !(newline())(#[trigger] rest[j]) by {
                assert(rest[j] == b[start + j]);
            }
            lemma_first_none(rest, newline());
        }
        if cb.len() > start {
            let piece = copy_bytes(cb, start, cb.len());
            proof {
                assert(occurs_at(cb@, piece@, start as int));
                assert(piece@ =~= rest);
            }
            let ghost nb4 = names_view(names@);
            insert_name(&mut names, piece, slot, Ghost(es));
            proof {
                lemma_lists_add(nb4, names_view(names@), ls, piece@, slot);
                let d2 = done.push(piece@);
                assert(ls.push((piece@, slot)) =~= listings(es, slot as int) + listed_as(
                    seq![utf8(es[slot as int].1)] + d2,
                    slot,
                ));
                assert(pieces(b) =~= d2);
                ls = ls.push((piece@, slot));
                done = d2;
            }
        } else {
            proof {
                assert(pieces(rest) =~= Seq::<Seq<u8>>::empty());
                assert(pieces(b) =~= done);
            }
        }
        proof {
            assert(done == pieces(utf8(es[slot as int].2)));
            assert(listings(es, slot + 1) == listings(es, slot as int) + listed_as(
                table_names(es[slot as int]),
                slot,
            ));
            assert(ls == listings(es, slot + 1));
        }
        slot += 1;
    }
    names
}

impl SchemaIndex {
    /// The tables the index holds, in order: key, lower-cased name, joined
    /// lower-cased column names.
    pub closed spec fn entries(&self) -> Seq<(TableKey, Seq<char>, Seq<char>)> {
        tables_view(self.data.tables@)
    }

    /// The connection the index was built for.
    pub closed spec fn id(&self) -> Seq<char> {
        self.conn_id@
    }

    /// The schema generation the index was built from.
    pub closed spec fn built_from(&self) -> u64 {
        self.generation
    }

    /// Flattens one connection's schema into its searchable names.
    pub fn build(conn_id: &str, generation: u64, schema: &SchemaTree) -> (r: Self)
        ensures
            r.id() == conn_id@,
            r.built_from() == generation,
            r.entries() == tree_entries(*schema).map_values(|e: (TableKey, Table)| indexed(e)),
    {
        let mut tables: Vec<IndexedTable> = Vec::new();
        if schema.databases.len() > 0 {
            let dbs = &schema.databases;
            let mut di: usize = 0;
            while di < dbs.len()
                invariant
                    di <= dbs.len(),
                    tables_view(tables@) == database_entries(dbs@, di as int).map_values(
                        |e: (TableKey, Table)| indexed(e),
                    ),
                decreases dbs.len() - di,
            {
                #[verifier::truncate]
                let db: u32 = di as u32;
                push_schemas(&mut tables, &dbs[di].schemas, db);
                proof {
                    assert(database_entries(dbs@, di + 1).map_values(
                        |e: (TableKey, Table)| indexed(e),
                    ) =~= database_entries(dbs@, di as int).map_values(
                        |e: (TableKey, Table)| indexed(e),
                    ) + schema_entries(
                        dbs@[di as int].schemas@,
                        db,
                        dbs@[di as int].schemas@.len() as int,
                    ).map_values(|e: (TableKey, Table)| indexed(e)));
                }
                di += 1;
            }
        } else if schema.schemas.len() > 0 {
            push_schemas(&mut tables, &schema.schemas, NONE);
            proof {
                assert(tables_view(tables@) =~= Seq::<(TableKey, Seq<char>, Seq<char>)>::empty()
                    + schema_entries(schema.schemas@, NONE, schema.schemas@.len() as int).map_values(
                    |e: (TableKey, Table)| indexed(e),
                ));
            }
        } else {
            push_tables(&mut tables, &schema.tables, NONE, NONE);
        }
        let by_name = name_list(&tables);
        let mut id = String::new();
        id.append(conn_id);
        SchemaIndex { conn_id: id, generation, data: IndexData { tables, by_name } }
    }

    pub fn table_count(&self) -> (r: usize)
        ensures
            r == self.entries().len(),
    {
        self.data.tables.len()
    }

    /// The ordered names with the slots of the tables that carry each.
    pub closed spec fn names(&self) -> Seq<(Seq<u8>, Seq<usize>)> {
        names_view(self.data.by_name@)
    }

    /// Flags the slots whose table or column name begins with `filter`,
    /// straight out of the ordered name list.
    fn prefix_slots(&self, filter: &[u8], flags: &mut Vec<bool>)
        requires
            old(flags)@.len() == self.entries().len(),
        ensures
            final(flags)@.len() == old(flags)@.len(),
            forall|x: usize|
                x < final(flags)@.len() ==> #[trigger] final(flags)@[x as int] == (old(flags)@[x as int]
                    || prefix_hit(self.names(), filter@, x)),
    {
        proof {
            use_type_invariant(&self.data);
        }
        let names = &self.data.by_name;
        let ghost nv = names_view(names@);
        let ghost init = flags@;
        let pos = lower_bound(names, filter);
        let mut i = pos;
        while i < names.len() && bytes_starts_with(names[i].0.as_slice(), filter)
            invariant
                pos <= i <= names@.len(),
                nv == names_view(names@),
                nv == self.names(),
                names_ok(nv, self.entries()),
                flags@.len() == init.len(),
                init.len() == self.entries().len(),
                forall|k: int| pos <= k < i ==> starts_with_bytes(#[trigger] nv[k].0, filter@),
                forall|x: usize|
                    x < flags@.len() ==> #[trigger] flags@[x as int] == (init[x as int] || hit_between(
                        nv,
                        pos as int,
                        i as int,
                        x,
                    )),
            decreases names@.len() - i,
        {
            assert(nv[i as int].0 == names@[i as int].0@);
            let slots = &names[i].1;
            let ghost before = flags@;
            let mut k: usize = 0;
            while k < slots.len()
                invariant
                    i < names@.len(),
                    nv == names_view(names@),
                    slots@ == nv[i as int].1,
                    names_ok(nv, self.entries()),
                    flags@.len() == before.len(),
                    before.len() == self.entries().len(),
                    k <= slots.len(),
                    forall|x: usize|
                        x < flags@.len() ==> #[trigger] flags@[x as int] == (before[x as int]
                            || slots@.take(k as int).contains(x)),
                decreases slots.len() - k,
            {
                let s = slots[k];
                assert(nv[i as int].1[k as int] == s);
                assert(s < self.entries().len()) by {
                    assert(names_ok(nv, self.entries()));
                    assert(nv[i as int].1[k as int] < self.entries().len());
                }
                flags.set(s, true);
                proof {
                    assert(slots@.take(k + 1) =~= slots@.take(k as int).push(s));
                    assert forall|x: usize| x < flags@.len() implies #[trigger] flags@[x as int] == (
                    before[x as int] || slots@.take(k + 1).contains(x)) by {
                        lemma_seq_contains_after_push(slots@.take(k as int), s, x);
                    }
                }
                k += 1;
            }
            proof {
                assert(slots@.take(slots@.len() as int) =~= slots@);
                assert forall|x: usize| x < flags@.len() implies #[trigger] flags@[x as int] == (
                init[x as int] || hit_between(nv, pos as int, i + 1, x)) by {
                    if hit_between(nv, pos as int, i + 1, x) && !hit_between(nv, pos as int, i as int, x) {
                        let k = choose|k: int| pos <= k < i + 1 && #[trigger] nv[k].1.contains(x);
                        assert(k == i);
                    }
                    if nv[i as int].1.contains(x) {
                        assert(hit_between(nv, pos as int, i + 1, x));
                    }
                    if hit_between(nv, pos as int, i as int, x) {
                        let k = choose|k: int| pos <= k < i && #[trigger] nv[k].1.contains(x);
                        assert(hit_between(nv, pos as int, i + 1, x));
                    }
                }
            }
            i += 1;
        }
        proof {
            assert forall|x: usize| x < flags@.len() implies #[trigger] flags@[x as int] == (
            init[x as int] || prefix_hit(nv, filter@, x)) by {
                if prefix_hit(nv, filter@, x) {
                    let k = choose|k: int|
                        0 <= k < nv.len() && starts_with_bytes(nv[k].0, filter@)
                            && #[trigger] nv[k].1.contains(x);
                    if k < pos {
                        lemma_prefix_not_below(filter@, nv[k].0);
                    } else if k > i {
                        lemma_prefix_run_ends(filter@, nv[i as int].0, nv[k].0);
                    } else if k == i {
                        assert(nv[i as int].0 == names@[i as int].0@);
                    } else {
                        assert(hit_between(nv, pos as int, i as int, x));
                    }
                }
                if hit_between(nv, pos as int, i as int, x) {
                    let k = choose|k: int| pos <= k < i && #[trigger] nv[k].1.contains(x);
                    assert(starts_with_bytes(nv[k].0, filter@));
                }
            }
        }
    }
}

/// Some name in `ns` that begins with `f` lists slot `x`.
pub open spec fn prefix_hit(ns: Seq<(Seq<u8>, Seq<usize>)>, f: Seq<u8>, x: usize) -> bool {
    exists|i: int| 0 <= i < ns.len() && starts_with_bytes(ns[i].0, f) && #[trigger] ns[i].1.contains(x)
}

/// Some name at a position in `lo..hi` lists slot `x`.
spec fn hit_between(ns: Seq<(Seq<u8>, Seq<usize>)>, lo: int, hi: int, x: usize) -> bool {
    exists|k: int| lo <= k < hi && #[trigger] ns[k].1.contains(x)
}

// ─── Searching ─────────────────────────────────────────────────────────────

/// The filter hits some table of `idx`.
pub open spec fn has_hit(idx: SchemaIndex, f: Seq<u8>) -> bool {
    hit_keys(idx.entries(), f, idx.entries().len() as int).len() > 0
}

/// The last of the first `n` indexes for connection `id` that the filter hits.
pub open spec fn latest_hit(indexes: Seq<Arc<SchemaIndex>>, f: Seq<u8>, id: Seq<char>, n: int) -> Option<
    int,
>
    decreases n,
{
    if n <= 0 {
        None
    } else if indexes[n - 1].id() == id && has_hit(*indexes[n - 1], f) {
        Some(n - 1)
    } else {
        latest_hit(indexes, f, id, n - 1)
    }
}

/// What survives the filter, by connection and by table: `conns[i]`,
/// `tables[i].0` and `generations[i].0` name the same connection, and no
/// connection is named twice.
#[derive(Default, Debug)]
pub struct Matches {
    pub filter: String,
    /// Connection ids with at least one matching table.
    pub conns: Vec<String>,
    /// Matching tables per connection.
    pub tables: Vec<(String, Vec<TableKey>)>,
    /// The generation each connection's index was at, so stale results are
    /// ignored rather than mapped onto a schema that has since changed.
    pub generations: Vec<(String, u64)>,
}

/// What `search` over the first `n` indexes has gathered.
pub open spec fn gathered(m: Matches, indexes: Seq<Arc<SchemaIndex>>, f: Seq<u8>, n: int) -> bool {
    &&& m.tables@.len() == m.conns@.len()
    &&& m.generations@.len() == m.conns@.len()
    &&& forall|i: int, j: int| 0 <= i < j < m.conns@.len() ==> #[trigger] m.conns@[i]@ != #[trigger] m.conns@[j]@
    &&& forall|i: int|
        0 <= i < m.conns@.len() ==> {
            &&& m.tables@[i].0@ == (#[trigger] m.conns@[i])@
            &&& m.generations@[i].0@ == m.conns@[i]@
            &&& match latest_hit(indexes, f, m.conns@[i]@, n) {
                Some(k) => m.tables@[i].1@ == hit_keys(
                    indexes[k].entries(),
                    f,
                    indexes[k].entries().len() as int,
                ) && m.generations@[i].1 == indexes[k].built_from(),
                None => false,
            }
        }
    &&& forall|k: int|
        0 <= k < n && has_hit(*indexes[k], f) ==> exists|i: int|
            0 <= i < m.conns@.len() && (#[trigger] m.conns@[i])@ == (#[trigger] indexes[k]).id()
}

/// Some connection of `m` is `id`.
pub open spec fn conn_listed(m: Matches, id: Seq<char>) -> bool {
    exists|i: int| 0 <= i < m.conns@.len() && (#[trigger] m.conns@[i])@ == id
}

/// A table entry for connection `id`.
pub open spec fn entry_for_conn(id: Seq<char>) -> spec_fn((String, Vec<TableKey>)) -> bool {
    |e: (String, Vec<TableKey>)| e.0@ == id
}

/// A table of a connection matches only where the connection matches too:
/// what `search` gathered lists each table under a connection it lists.
pub proof fn law_table_match_implies_conn_match(
    m: Matches,
    indexes: Seq<Arc<SchemaIndex>>,
    f: Seq<u8>,
    n: int,
    id: Seq<char>,
    key: TableKey,
)
    requires
        gathered(m, indexes, f, n),
        table_listed(m, id, key),
    ensures
        conn_listed(m, id),
{
    crate::seqs::lemma_first_some(m.tables@, entry_for_conn(id));
    let i = first_where(m.tables@, entry_for_conn(id))->0;
    assert(m.tables@[i].0@ == m.conns@[i]@);
    assert(m.conns@[i]@ == id);
}

/// The first table entry of `m` for `id` lists `key`.
pub open spec fn table_listed(m: Matches, id: Seq<char>, key: TableKey) -> bool {
    match first_where(m.tables@, entry_for_conn(id)) {
        Some(i) => m.tables@[i].1@.contains(key),
        None => false,
    }
}

impl Matches {
    pub fn conn_matches(&self, conn_id: &str) -> (r: bool)
        ensures
            r == conn_listed(*self, conn_id@),
    {
        let mut i: usize = 0;
        while i < self.conns.len()
            invariant
                i <= self.conns@.len(),
                forall|k: int| 0 <= k < i ==> (#[trigger] self.conns@[k])@ != conn_id@,
            decreases self.conns@.len() - i,
        {
            if str_eq(self.conns[i].as_str(), conn_id) {
                return true;
            }
            i += 1;
        }
        false
    }

    /// The first entry for `conn_id` lists `key`.
    pub fn table_matches(&self, conn_id: &str, key: TableKey) -> (r: bool)
        ensures
            r == table_listed(*self, conn_id@, key),
    {
        let ghost p = entry_for_conn(conn_id@);
        let mut i: usize = 0;
        while i < self.tables.len()
            invariant
                i <= self.tables@.len(),
                p == entry_for_conn(conn_id@),
                forall|k: int| 0 <= k < i ==> !p(#[trigger] self.tables@[k]),
            decreases self.tables@.len() - i,
        {
            if str_eq(self.tables[i].0.as_str(), conn_id) {
                proof {
                    lemma_first_found(self.tables@, p, i as int);
                }
                let keys = &self.tables[i].1;
                let mut k: usize = 0;
                while k < keys.len()
                    invariant
                        k <= keys@.len(),
                        keys@ == self.tables@[i as int].1@,
                        first_where(self.tables@, p) == Some(i as int),
                        p == entry_for_conn(conn_id@),
                        forall|j: int| 0 <= j < k ==> keys@[j] != key,
                    decreases keys@.len() - k,
                {
                    let c = keys[k];
                    if c.0 == key.0 && c.1 == key.1 && c.2 == key.2 {
                        assert(self.tables@[i as int].1@[k as int] == key);
                        return true;
                    }
                    k += 1;
                }
                return false;
            }
            i += 1;
        }
        proof {
            lemma_first_none(self.tables@, p);
        }
        false
    }
}

/// The keys of the tables `filter` hits in one index.
fn index_hits(index: &SchemaIndex, filter: &str) -> (r: Vec<TableKey>)
    ensures
        r@ == hit_keys(index.entries(), bytes_of(filter), index.entries().len() as int),
{
    proof {
        use_type_invariant(&index.data);
        lemma_chars_of_bytes(filter);
    }
    let tables = &index.data.tables;
    let ghost es = tables_view(tables@);
    let ghost f = bytes_of(filter);
    let n = tables.len();
    let mut flags: Vec<bool> = Vec::new();
    let mut s: usize = 0;
    while s < n
        invariant
            s <= n,
            flags@.len() == s,
            forall|x: int| 0 <= x < s ==> !(#[trigger] flags@[x]),
        decreases n - s,
    {
        flags.push(false);
        s += 1;
    }
    index.prefix_slots(filter.as_bytes(), &mut flags);
    proof {
        // Whatever the name list flags is a substring hit.
        let nv = index.names();
        assert(names_ok(nv, es));
        assert forall|x: int| 0 <= x < n && #[trigger] flags@[x] implies text_hit(es[x], f) by {
            assert(flags@[(x as usize) as int] == (false || prefix_hit(nv, f, x as usize)));
            let i = choose|i: int|
                0 <= i < nv.len() && starts_with_bytes(nv[i].0, f) && #[trigger] nv[i].1.contains(
                    x as usize,
                );
            let k = choose|k: int| 0 <= k < nv[i].1.len() && nv[i].1[k] == x as usize;
            assert(names_table(nv[i].0, es[nv[i].1[k] as int]));
            if nv[i].0 == utf8(es[x].1) {
                assert(occurs_at(utf8(es[x].1), f, 0));
            } else {
                let a = choose|a: int| occurs_at(utf8(es[x].2), nv[i].0, a);
                assert(utf8(es[x].2).subrange(a, a + f.len()) =~= nv[i].0.subrange(0, f.len() as int));
                assert(occurs_at(utf8(es[x].2), f, a));
            }
        }
    }
    let mut s: usize = 0;
    while s < n
        invariant
            s <= n,
            n == tables@.len(),
            es == tables_view(tables@),
            f == bytes_of(filter),
            flags@.len() == n,
            forall|x: int| 0 <= x < n && #[trigger] flags@[x] ==> text_hit(es[x], f),
            forall|x: int| 0 <= x < s ==> (#[trigger] flags@[x] <==> text_hit(es[x], f)),
        decreases n - s,
    {
        if !flags[s] {
            let t = &tables[s];
            if str_contains(t.name.as_str(), filter) || str_contains(t.columns.as_str(), filter) {
                flags.set(s, true);
            }
        }
        s += 1;
    }
    let mut keys: Vec<TableKey> = Vec::new();
    let mut s: usize = 0;
    while s < n
        invariant
            s <= n,
            n == tables@.len(),
            es == tables_view(tables@),
            flags@.len() == n,
            forall|x: int| 0 <= x < n ==> (#[trigger] flags@[x] <==> text_hit(es[x], f)),
            keys@ == hit_keys(es, f, s as int),
        decreases n - s,
    {
        if flags[s] {
            keys.push(tables[s].key);
        }
        s += 1;
    }
    keys
}

fn copy_string(s: &String) -> (r: String)
    ensures
        r@ == s@,
{
    let mut r = String::new();
    r.append(s.as_str());
    proof {
        assert(r@ =~= s@);
    }
    r
}

/// Where `id` sits in `v`, or `v.len()`.
fn position_of(v: &Vec<String>, id: &String) -> (r: usize)
    ensures
        r <= v@.len(),
        r < v@.len() ==> v@[r as int]@ == id@,
        forall|k: int| 0 <= k < r ==> (#[trigger] v@[k])@ != id@,
{
    let mut i: usize = 0;
    while i < v.len()
        invariant
            i <= v@.len(),
            forall|k: int| 0 <= k < i ==> (#[trigger] v@[k])@ != id@,
        decreases v@.len() - i,
    {
        if v[i] == *id {
            return i;
        }
        i += 1;
    }
    i
}

/// Search every index for `filter` (already lower-cased and trimmed): a
/// table matches when the filter occurs in its lower-cased name or in its
/// lower-cased column names. For each connection id the last index that
/// `filter` hits decides its tables and generation.
pub fn search(indexes: &[Arc<SchemaIndex>], filter: &str) -> (m: Matches)
    ensures
        m.filter@ == filter@,
        filter@.len() == 0 ==> m.conns@.len() == 0 && m.tables@.len() == 0
            && m.generations@.len() == 0,
        filter@.len() > 0 ==> gathered(m, indexes@, bytes_of(filter), indexes@.len() as int),
{
    let mut m = Matches {
        filter: filter.to_owned(),
        conns: Vec::new(),
        tables: Vec::new(),
        generations: Vec::new(),
    };
    if filter.is_empty() {
        return m;
    }
    let ghost f = bytes_of(filter);
    let mut j: usize = 0;
    while j < indexes.len()
        invariant
            j <= indexes@.len(),
            f == bytes_of(filter),
            m.filter@ == filter@,
            gathered(m, indexes@, f, j as int),
        decreases indexes@.len() - j,
    {
        let index: &SchemaIndex = &indexes[j];
        assert(*index == *indexes@[j as int]);
        let keys = index_hits(index, filter);
        if keys.len() > 0 {
            let ghost old_m = m;
            let id = &index.conn_id;
            let i = position_of(&m.conns, id);
            if i < m.conns.len() {
                let id1 = copy_string(id);
                let id2 = copy_string(id);
                m.tables.set(i, (id1, keys));
                m.generations.set(i, (id2, index.generation));
            } else {
                let id0 = copy_string(id);
                let id1 = copy_string(id);
                let id2 = copy_string(id);
                m.conns.push(id0);
                m.tables.push((id1, keys));
                m.generations.push((id2, index.generation));
            }
            proof {
                assert(m.conns@[i as int]@ == id@);
                assert(latest_hit(indexes@, f, id@, j + 1) == Some(j as int));
                assert forall|x: int| 0 <= x < m.conns@.len() && x != i implies latest_hit(
                    indexes@,
                    f,
                    #[trigger] m.conns@[x]@,
                    j + 1,
                ) == latest_hit(indexes@, f, m.conns@[x]@, j as int) by {
                    assert(m.conns@[x] == old_m.conns@[x]);
                    if i < old_m.conns@.len() {
                        assert(old_m.conns@[x]@ != old_m.conns@[i as int]@);
                    }
                }
                assert forall|x: int, y: int| 0 <= x < y < m.conns@.len() implies #[trigger] m.conns@[x]@
                    != #[trigger] m.conns@[y]@ by {
                    if y == old_m.conns@.len() {
                        assert(m.conns@[x] == old_m.conns@[x]);
                    }
                }
                assert forall|k: int|
                    0 <= k < j + 1 && has_hit(*indexes@[k], f) implies exists|x: int|
                    0 <= x < m.conns@.len() && (#[trigger] m.conns@[x])@ == (
                    #[trigger] indexes@[k]).id() by {
                    if k < j {
                        let x = choose|x: int|
                            0 <= x < old_m.conns@.len() && (#[trigger] old_m.conns@[x])@
                                == indexes@[k].id();
                        assert(m.conns@[x] == old_m.conns@[x]);
                    } else {
                        assert(m.conns@[i as int]@ == indexes@[k].id());
                    }
                }
            }
        } else {
            proof {
                assert forall|x: int| 0 <= x < m.conns@.len() implies latest_hit(
                    indexes@,
                    f,
                    #[trigger] m.conns@[x]@,
                    j + 1,
                ) == latest_hit(indexes@, f, m.conns@[x]@, j as int) by {}
            }
        }
        j += 1;
    }
    m
}

} // verus!
