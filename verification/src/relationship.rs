//! The relationship diagram's graph: tables with their columns, foreign-key
//! edges between them, and the SQL that opens a table from the diagram.
use crate::bytes::{contains_bytes, str_contains, str_eq};
use crate::models::{Column, Relationship, RelationshipColumnPair, Schema, SchemaTree, Table};
use crate::seqs::{first_where, lemma_first_found, lemma_first_none};
use crate::sorting::{sort_by_key, sorted_by_key, Keyed};
use crate::stable_json::{canonical, stable_stringify, JsonTree};
use crate::text::{chars_vec, push_char, utf16_len, utf16_units};
use crate::unicode::{str_lower, to_lowercase, trim, trim_spec};
use vstd::utf8::encode_utf8;
use vstd::prelude::*;
use vstd::string::StringExecFns;

pub mod layout;

verus! {

broadcast use vstd::string::group_string_axioms;

#[derive(Debug, Clone, PartialEq)]
pub struct DiagramColumn {
    pub id: String,
    pub name: String,
    pub column_type: String,
    pub key: String,
    pub is_primary_key: bool,
    pub is_foreign_key: bool,
}

#[derive(Debug, Clone, PartialEq)]
pub struct DiagramEdge {
    pub id: String,
    pub constraint_name: String,
    pub source_table_id: String,
    pub target_table_id: String,
    pub source_column_ids: Vec<String>,
    pub target_column_ids: Vec<String>,
    pub on_update: String,
    pub on_delete: String,
    pub is_self_referential: bool,
}

/// A table box of the diagram; `width` and `height` are in pixels.
#[derive(Debug, Clone, PartialEq)]
pub struct DiagramTable {
    pub id: String,
    pub schema_name: String,
    pub table_name: String,
    pub title: String,
    pub width: u64,
    pub height: u64,
    pub columns: Vec<DiagramColumn>,
}

#[derive(Debug, Clone, PartialEq)]
pub struct DiagramGraph {
    pub tables: Vec<DiagramTable>,
    pub edges: Vec<DiagramEdge>,
}

impl Keyed for DiagramTable {
    open spec fn key_view(&self) -> Seq<char> {
        self.id@
    }

    fn key(&self) -> (r: &str) {
        self.id.as_str()
    }
}

impl Keyed for DiagramEdge {
    open spec fn key_view(&self) -> Seq<char> {
        self.id@
    }

    fn key(&self) -> (r: &str) {
        self.id.as_str()
    }
}

pub const HEADER_HEIGHT: u64 = 40;
pub const ROW_HEIGHT: u64 = 24;
pub const MIN_WIDTH: u64 = 220;
pub const WIDTH_PER_CHAR: u64 = 7;
pub const COLUMN_PADDING: u64 = 56;

// ─── Ids ───────────────────────────────────────────────────────────────────

/// A table's id: `schema.table`, or the bare name without a schema.
pub open spec fn table_id_spec(schema: Seq<char>, table: Seq<char>) -> Seq<char> {
    if schema.len() == 0 {
        table
    } else {
        schema + seq!['.'] + table
    }
}

/// A column's id: `table_id.column`.
pub open spec fn column_id_spec(table_id: Seq<char>, column: Seq<char>) -> Seq<char> {
    table_id + seq!['.'] + column
}

fn make_table_id(schema: &str, table: &str) -> (r: String)
    ensures
        r@ == table_id_spec(schema@, table@),
{
    let mut r = String::new();
    if !schema.is_empty() {
        r.append(schema);
        push_char(&mut r, '.');
    }
    r.append(table);
    proof {
        assert(r@ =~= table_id_spec(schema@, table@));
    }
    r
}

fn make_column_id(table_id: &str, column: &str) -> (r: String)
    ensures
        r@ == column_id_spec(table_id@, column@),
{
    let mut r = String::new();
    r.append(table_id);
    push_char(&mut r, '.');
    r.append(column);
    r
}

// ─── Edges ─────────────────────────────────────────────────────────────────

pub open spec fn source_id(rel: Relationship) -> Seq<char> {
    table_id_spec(rel.source_table.schema_name@, rel.source_table.table_name@)
}

pub open spec fn target_id(rel: Relationship) -> Seq<char> {
    table_id_spec(rel.target_table.schema_name@, rel.target_table.table_name@)
}

/// The edge a foreign key draws, from the referencing table to the
/// referenced one.
pub open spec fn edge_matches(e: DiagramEdge, rel: Relationship) -> bool {
    let source = source_id(rel);
    let target = target_id(rel);
    &&& e.id@ == source + seq![':', ':'] + rel.constraint_name@
    &&& e.constraint_name@ == rel.constraint_name@
    &&& e.source_table_id@ == source
    &&& e.target_table_id@ == target
    &&& e.source_column_ids@.len() == rel.column_pairs@.len()
    &&& e.target_column_ids@.len() == rel.column_pairs@.len()
    &&& forall|k: int|
        0 <= k < rel.column_pairs@.len() ==> (#[trigger] e.source_column_ids@[k])@ == column_id_spec(
            source,
            rel.column_pairs@[k].source_column@,
        ) && e.target_column_ids@[k]@ == column_id_spec(
            target,
            rel.column_pairs@[k].target_column@,
        )
    &&& e.on_update@ == rel.on_update@
    &&& e.on_delete@ == rel.on_delete@
    &&& e.is_self_referential == (source == target)
}

fn make_edge(rel: &Relationship) -> (e: DiagramEdge)
    ensures
        edge_matches(e, *rel),
{
    let source = make_table_id(rel.source_table.schema_name.as_str(), rel.source_table.table_name.as_str());
    let target = make_table_id(rel.target_table.schema_name.as_str(), rel.target_table.table_name.as_str());
    let mut id = source.clone();
    push_char(&mut id, ':');
    push_char(&mut id, ':');
    id.append(rel.constraint_name.as_str());
    let pairs = &rel.column_pairs;
    let mut source_column_ids: Vec<String> = Vec::new();
    let mut target_column_ids: Vec<String> = Vec::new();
    let mut k: usize = 0;
    while k < pairs.len()
        invariant
            k <= pairs@.len(),
            pairs@ == rel.column_pairs@,
            source@ == source_id(*rel),
            target@ == target_id(*rel),
            source_column_ids@.len() == k,
            target_column_ids@.len() == k,
            forall|x: int|
                0 <= x < k ==> (#[trigger] source_column_ids@[x])@ == column_id_spec(
                    source@,
                    pairs@[x].source_column@,
                ),
            forall|x: int|
                0 <= x < k ==> (#[trigger] target_column_ids@[x])@ == column_id_spec(
                    target@,
                    pairs@[x].target_column@,
                ),
        decreases pairs@.len() - k,
    {
        let p: &RelationshipColumnPair = &pairs[k];
        let sc = make_column_id(source.as_str(), p.source_column.as_str());
        let tc = make_column_id(target.as_str(), p.target_column.as_str());
        let ghost s0 = source_column_ids@;
        let ghost t0 = target_column_ids@;
        source_column_ids.push(sc);
        target_column_ids.push(tc);
        proof {
            assert(source_column_ids@ == s0.push(sc));
            assert(target_column_ids@ == t0.push(tc));
        }
        k += 1;
    }
    let self_ref = source == target;
    proof {
        assert(id@ =~= source_id(*rel) + seq![':', ':'] + rel.constraint_name@);
    }
    DiagramEdge {
        id,
        constraint_name: rel.constraint_name.clone(),
        source_table_id: source,
        target_table_id: target,
        source_column_ids,
        target_column_ids,
        on_update: rel.on_update.clone(),
        on_delete: rel.on_delete.clone(),
        is_self_referential: self_ref,
    }
}

/// Some relationship among the first `n` makes column id `id` from its
/// source table and one of its source columns.
pub open spec fn fk_upto(rels: Seq<Relationship>, n: int, id: Seq<char>) -> bool {
    exists|i: int, k: int|
        0 <= i < n && 0 <= k < rels[i].column_pairs@.len() && #[trigger] column_id_spec(
            source_id(rels[i]),
            rels[i].column_pairs@[k].source_column@,
        ) == id
}

/// One of the first `n` pairs makes column id `id` on table `table_id`.
pub open spec fn pair_makes(table_id: Seq<char>, pairs: Seq<RelationshipColumnPair>, n: int, id: Seq<char>) -> bool {
    exists|k: int| 0 <= k < n && #[trigger] column_id_spec(table_id, pairs[k].source_column@) == id
}

/// `v` holds a string equal to `id`.
pub open spec fn has_id(v: Seq<String>, id: Seq<char>) -> bool {
    exists|x: int| 0 <= x < v.len() && (#[trigger] v[x])@ == id
}

/// Every column a foreign key starts from, as column ids.
fn collect_foreign_key_columns(relationships: &Vec<Relationship>) -> (r: Vec<String>)
    ensures
        forall|id: Seq<char>|
            #[trigger] has_id(r@, id) == fk_upto(relationships@, relationships@.len() as int, id),
{
    let mut out: Vec<String> = Vec::new();
    let mut i: usize = 0;
    while i < relationships.len()
        invariant
            i <= relationships@.len(),
            forall|id: Seq<char>| #[trigger] has_id(out@, id) == fk_upto(relationships@, i as int, id),
        decreases relationships@.len() - i,
    {
        let rel = &relationships[i];
        let table_id = make_table_id(rel.source_table.schema_name.as_str(), rel.source_table.table_name.as_str());
        let ghost before = out@;
        let mut k: usize = 0;
        while k < rel.column_pairs.len()
            invariant
                i < relationships@.len(),
                *rel == relationships@[i as int],
                table_id@ == source_id(*rel),
                k <= rel.column_pairs@.len(),
                forall|id: Seq<char>| #[trigger] has_id(out@, id) == (has_id(before, id) || pair_makes(
                    table_id@,
                    rel.column_pairs@,
                    k as int,
                    id,
                )),
            decreases rel.column_pairs@.len() - k,
        {
            let col = make_column_id(table_id.as_str(), rel.column_pairs[k].source_column.as_str());
            let ghost prev = out@;
            out.push(col);
            proof {
                assert forall|id: Seq<char>| #[trigger] has_id(out@, id) == (has_id(before, id) || pair_makes(
                    table_id@,
                    rel.column_pairs@,
                    k + 1,
                    id,
                )) by {
                    if has_id(out@, id) {
                        let x = choose|x: int| 0 <= x < out@.len() && (#[trigger] out@[x])@ == id;
                        if x < prev.len() {
                            assert(prev[x] == out@[x]);
                            assert(has_id(prev, id));
                        } else {
                            assert(column_id_spec(table_id@, rel.column_pairs@[k as int].source_column@) == id);
                        }
                    }
                    if pair_makes(table_id@, rel.column_pairs@, k + 1, id) {
                        let kk = choose|kk: int|
                            0 <= kk < k + 1 && #[trigger] column_id_spec(
                                table_id@,
                                rel.column_pairs@[kk].source_column@,
                            ) == id;
                        if kk == k {
                            assert(out@[prev.len() as int]@ == id);
                        } else {
                            assert(pair_makes(table_id@, rel.column_pairs@, k as int, id));
                            assert(has_id(prev, id));
                            let x = choose|x: int| 0 <= x < prev.len() && (#[trigger] prev[x])@ == id;
                            assert(out@[x] == prev[x]);
                        }
                    }
                    if has_id(before, id) {
                        assert(has_id(prev, id));
                        let x = choose|x: int| 0 <= x < prev.len() && (#[trigger] prev[x])@ == id;
                        assert(out@[x] == prev[x]);
                    }
                }
            }
            k += 1;
        }
        proof {
            assert forall|id: Seq<char>| #[trigger] has_id(out@, id) == fk_upto(relationships@, i + 1, id) by {
                if pair_makes(table_id@, rel.column_pairs@, rel.column_pairs@.len() as int, id) {
                    let kk = choose|kk: int|
                        0 <= kk < rel.column_pairs@.len() && #[trigger] column_id_spec(
                            table_id@,
                            rel.column_pairs@[kk].source_column@,
                        ) == id;
                    assert(column_id_spec(
                        source_id(relationships@[i as int]),
                        relationships@[i as int].column_pairs@[kk].source_column@,
                    ) == id);
                }
                if fk_upto(relationships@, i + 1, id) {
                    let (ii, kk) = choose|ii: int, kk: int|
                        0 <= ii < i + 1 && 0 <= kk < relationships@[ii].column_pairs@.len()
                            && #[trigger] column_id_spec(
                            source_id(relationships@[ii]),
                            relationships@[ii].column_pairs@[kk].source_column@,
                        ) == id;
                    if ii == i {
                        assert(pair_makes(table_id@, rel.column_pairs@, rel.column_pairs@.len() as int, id));
                    } else {
                        assert(fk_upto(relationships@, i as int, id));
                    }
                }
                if fk_upto(relationships@, i as int, id) {
                    let (ii, kk) = choose|ii: int, kk: int|
                        0 <= ii < i && 0 <= kk < relationships@[ii].column_pairs@.len()
                            && #[trigger] column_id_spec(
                            source_id(relationships@[ii]),
                            relationships@[ii].column_pairs@[kk].source_column@,
                        ) == id;
                    assert(fk_upto(relationships@, i + 1, id));
                }
            }
        }
        i += 1;
    }
    out
}

// ─── The SQL behind "open table" ───────────────────────────────────────────

/// The quote character of a driver's identifiers: a backtick for MySQL, a
/// double quote otherwise.
pub open spec fn quote_char(driver: Seq<char>) -> char {
    if driver == "mysql"@ {
        '`'
    } else {
        '"'
    }
}

/// The identifier's chars with each quote character doubled.
pub open spec fn escaped(s: Seq<char>, q: char) -> Seq<char>
    decreases s.len(),
{
    if s.len() == 0 {
        Seq::empty()
    } else if s.last() == q {
        escaped(s.drop_last(), q) + seq![q, q]
    } else {
        escaped(s.drop_last(), q).push(s.last())
    }
}

/// An identifier quoted for the driver.
pub open spec fn quoted_spec(name: Seq<char>, driver: Seq<char>) -> Seq<char> {
    let q = quote_char(driver);
    seq![q] + escaped(name, q) + seq![q]
}

fn quote_identifier(name: &str, driver: &str) -> (r: String)
    ensures
        r@ == quoted_spec(name@, driver@),
{
    let q = if str_eq(driver, "mysql") {
        '`'
    } else {
        '"'
    };
    let chars = crate::text::chars_vec(name);
    let mut r = String::new();
    push_char(&mut r, q);
    let mut i: usize = 0;
    while i < chars.len()
        invariant
            i <= chars@.len(),
            chars@ == name@,
            q == quote_char(driver@),
            r@ == seq![q] + escaped(chars@.take(i as int), q),
        decreases chars@.len() - i,
    {
        let c = chars[i];
        push_char(&mut r, c);
        if c == q {
            push_char(&mut r, q);
        }
        proof {
            assert(chars@.take(i + 1).drop_last() =~= chars@.take(i as int));
        }
        i += 1;
    }
    push_char(&mut r, q);
    proof {
        assert(chars@.take(chars@.len() as int) =~= chars@);
    }
    r
}

/// `SELECT * FROM <table> LIMIT 100;`, the table quoted for the driver and
/// qualified by its schema when there is one.
pub open spec fn query_sql_spec(driver: Seq<char>, schema: Seq<char>, table: Seq<char>) -> Seq<char> {
    let qualified = if schema.len() == 0 {
        quoted_spec(table, driver)
    } else {
        quoted_spec(schema, driver) + seq!['.'] + quoted_spec(table, driver)
    };
    "SELECT * FROM "@ + qualified + " LIMIT 100;"@
}

pub fn query_sql(driver: &str, schema: &str, table: &str) -> (r: String)
    ensures
        r@ == query_sql_spec(driver@, schema@, table@),
{
    let quoted = quote_identifier(table, driver);
    let mut r = String::new();
    r.append("SELECT * FROM ");
    if !schema.is_empty() {
        let qs = quote_identifier(schema, driver);
        r.append(qs.as_str());
        push_char(&mut r, '.');
    }
    r.append(quoted.as_str());
    r.append(" LIMIT 100;");
    proof {
        assert(r@ =~= query_sql_spec(driver@, schema@, table@));
    }
    r
}

/// The edge to show as selected: `selected` while some edge has that id,
/// else the first edge, else none ("").
pub open spec fn selected_edge_spec(edges: Seq<DiagramEdge>, selected: Seq<char>) -> Seq<char> {
    if exists|i: int| 0 <= i < edges.len() && (#[trigger] edges[i]).id@ == selected {
        selected
    } else if edges.len() > 0 {
        edges[0].id@
    } else {
        Seq::empty()
    }
}

pub fn effective_selected_edge_id(edges: &[DiagramEdge], selected: &str) -> (r: String)
    ensures
        r@ == selected_edge_spec(edges@, selected@),
{
    let mut i: usize = 0;
    while i < edges.len()
        invariant
            i <= edges@.len(),
            forall|k: int| 0 <= k < i ==> (#[trigger] edges@[k]).id@ != selected@,
        decreases edges@.len() - i,
    {
        if str_eq(edges[i].id.as_str(), selected) {
            let mut r = String::new();
            r.append(selected);
            return r;
        }
        i += 1;
    }
    if edges.len() > 0 {
        edges[0].id.clone()
    } else {
        String::new()
    }
}

} // verus!

verus! {

// ─── Table boxes ───────────────────────────────────────────────────────────

/// A value cut down to what a `u64` holds.
pub open spec fn sat64(x: int) -> int {
    if x > u64::MAX {
        u64::MAX as int
    } else {
        x
    }
}

/// The text a column shows: `name: type`.
pub open spec fn column_label(c: DiagramColumn) -> Seq<char> {
    c.name@ + ": "@ + c.column_type@
}

/// The widest text of a box in UTF-16 units: its header or one of its
/// column labels.
pub open spec fn widest_label(header: Seq<char>, columns: Seq<DiagramColumn>) -> nat
    decreases columns.len(),
{
    if columns.len() == 0 {
        utf16_units(header)
    } else {
        let rest = widest_label(header, columns.drop_last());
        let here = utf16_units(column_label(columns.last()));
        if here > rest {
            here
        } else {
            rest
        }
    }
}

/// A box is `7` pixels a unit of its widest text plus `56`, and at least
/// `220` wide.
pub open spec fn width_spec(header: Seq<char>, columns: Seq<DiagramColumn>) -> int {
    let w = WIDTH_PER_CHAR * widest_label(header, columns) + COLUMN_PADDING;
    sat64(if w > MIN_WIDTH {
        w
    } else {
        MIN_WIDTH as int
    })
}

/// A box is `40` pixels of header and `24` for each column.
pub open spec fn height_spec(n: nat) -> int {
    sat64(HEADER_HEIGHT + ROW_HEIGHT * n)
}

fn estimate_width(header: &str, columns: &Vec<DiagramColumn>) -> (r: u64)
    ensures
        r == width_spec(header@, columns@),
{
    let mut widest = utf16_len(header);
    let mut k: usize = 0;
    while k < columns.len()
        invariant
            k <= columns@.len(),
            widest == widest_label(header@, columns@.take(k as int)),
        decreases columns@.len() - k,
    {
        let c = &columns[k];
        let mut label = c.name.clone();
        label.append(": ");
        label.append(c.column_type.as_str());
        let here = utf16_len(label.as_str());
        proof {
            assert(columns@.take(k + 1).drop_last() =~= columns@.take(k as int));
            assert(label@ == column_label(columns@[k as int]));
        }
        if here > widest {
            widest = here;
        }
        k += 1;
    }
    proof {
        assert(columns@.take(k as int) =~= columns@);
    }
    let wide = widest as u64;
    let w: u64 = if wide > (u64::MAX - COLUMN_PADDING) / WIDTH_PER_CHAR {
        u64::MAX
    } else {
        wide * WIDTH_PER_CHAR + COLUMN_PADDING
    };
    if w > MIN_WIDTH {
        w
    } else {
        MIN_WIDTH
    }
}

fn box_height(n: usize) -> (r: u64)
    ensures
        r == height_spec(n as nat),
{
    let rows = n as u64;
    if rows > (u64::MAX - HEADER_HEIGHT) / ROW_HEIGHT {
        u64::MAX
    } else {
        rows * ROW_HEIGHT + HEADER_HEIGHT
    }
}

} // verus!

verus! {

/// The column of a box drawn for column `c` of table `table_id`; it is a
/// foreign key when some relationship starts from it.
pub open spec fn column_matches(d: DiagramColumn, table_id: Seq<char>, c: Column, rels: Seq<Relationship>) -> bool {
    &&& d.id@ == column_id_spec(table_id, c.name@)
    &&& d.name@ == c.name@
    &&& d.column_type@ == c.column_type@
    &&& d.key@ == c.key@
    &&& d.is_primary_key == (c.key@ == "PRI"@)
    &&& d.is_foreign_key == fk_upto(rels, rels.len() as int, d.id@)
}

/// The box drawn for table `t` of schema `schema`.
pub open spec fn node_matches(d: DiagramTable, schema: Seq<char>, t: Table, rels: Seq<Relationship>) -> bool {
    let id = table_id_spec(schema, t.name@);
    &&& d.id@ == id
    &&& d.schema_name@ == schema
    &&& d.table_name@ == t.name@
    &&& d.title@ == id
    &&& d.columns@.len() == t.columns@.len()
    &&& forall|k: int|
        0 <= k < t.columns@.len() ==> column_matches(#[trigger] d.columns@[k], id, t.columns@[k], rels)
    &&& d.width == width_spec(id, d.columns@)
    &&& d.height == height_spec(t.columns@.len())
}

/// `v` holds a string equal to `id`.
pub(crate) fn contains_id(v: &Vec<String>, id: &str) -> (r: bool)
    ensures
        r == has_id(v@, id@),
{
    let mut i: usize = 0;
    while i < v.len()
        invariant
            i <= v@.len(),
            forall|x: int| 0 <= x < i ==> (#[trigger] v@[x])@ != id@,
        decreases v@.len() - i,
    {
        if str_eq(v[i].as_str(), id) {
            return true;
        }
        i += 1;
    }
    false
}

fn make_table_node(schema: &str, table: &Table, fk: &Vec<String>, Ghost(rels): Ghost<Seq<Relationship>>) -> (r:
    DiagramTable)
    requires
        forall|id: Seq<char>| #[trigger] has_id(fk@, id) == fk_upto(rels, rels.len() as int, id),
    ensures
        node_matches(r, schema@, *table, rels),
{
    let table_id = make_table_id(schema, table.name.as_str());
    let mut columns: Vec<DiagramColumn> = Vec::new();
    let mut k: usize = 0;
    while k < table.columns.len()
        invariant
            k <= table.columns@.len(),
            table_id@ == table_id_spec(schema@, table.name@),
            forall|id: Seq<char>| #[trigger] has_id(fk@, id) == fk_upto(rels, rels.len() as int, id),
            columns@.len() == k,
            forall|x: int|
                0 <= x < k ==> column_matches(#[trigger] columns@[x], table_id@, table.columns@[x], rels),
        decreases table.columns@.len() - k,
    {
        let c: &Column = &table.columns[k];
        let id = make_column_id(table_id.as_str(), c.name.as_str());
        let is_foreign_key = contains_id(fk, id.as_str());
        let is_primary_key = str_eq(c.key.as_str(), "PRI");
        columns.push(
            DiagramColumn {
                id,
                name: c.name.clone(),
                column_type: c.column_type.clone(),
                key: c.key.clone(),
                is_primary_key,
                is_foreign_key,
            },
        );
        k += 1;
    }
    let title = make_table_id(schema, table.name.as_str());
    let width = estimate_width(title.as_str(), &columns);
    let mut schema_name = String::new();
    schema_name.append(schema);
    DiagramTable {
        id: table_id,
        schema_name,
        table_name: table.name.clone(),
        title,
        width,
        height: box_height(columns.len()),
        columns,
    }
}

/// The tables of one schema after another, each with its schema's name.
pub open spec fn schema_tables(schemas: Seq<Schema>) -> Seq<(Seq<char>, Table)>
    decreases schemas.len(),
{
    if schemas.len() == 0 {
        Seq::empty()
    } else {
        let s = schemas.last();
        schema_tables(schemas.drop_last()) + s.tables@.map_values(|t: Table| (s.name@, t))
    }
}

/// The tables the diagram draws: those of the schemas when there are any,
/// else the flat list, without a schema name.
pub open spec fn tables_spec(tree: SchemaTree) -> Seq<(Seq<char>, Table)> {
    if tree.schemas@.len() > 0 {
        schema_tables(tree.schemas@)
    } else {
        tree.tables@.map_values(|t: Table| (Seq::<char>::empty(), t))
    }
}

fn collect_tables(tree: &SchemaTree) -> (r: Vec<(String, &Table)>)
    ensures
        r@.len() == tables_spec(*tree).len(),
        forall|i: int|
            0 <= i < r@.len() ==> (#[trigger] r@[i]).0@ == tables_spec(*tree)[i].0 && *r@[i].1
                == tables_spec(*tree)[i].1,
{
    let mut out: Vec<(String, &Table)> = Vec::new();
    if tree.schemas.len() > 0 {
        let mut s: usize = 0;
        while s < tree.schemas.len()
            invariant
                s <= tree.schemas@.len(),
                out@.len() == schema_tables(tree.schemas@.take(s as int)).len(),
                forall|i: int|
                    0 <= i < out@.len() ==> (#[trigger] out@[i]).0@ == schema_tables(
                        tree.schemas@.take(s as int),
                    )[i].0 && *out@[i].1 == schema_tables(tree.schemas@.take(s as int))[i].1,
            decreases tree.schemas@.len() - s,
        {
            let schema: &Schema = &tree.schemas[s];
            let ghost before = out@;
            let ghost prev = schema_tables(tree.schemas@.take(s as int));
            let mut t: usize = 0;
            while t < schema.tables.len()
                invariant
                    s < tree.schemas@.len(),
                    *schema == tree.schemas@[s as int],
                    t <= schema.tables@.len(),
                    prev == schema_tables(tree.schemas@.take(s as int)),
                    before.len() == prev.len(),
                    out@.len() == before.len() + t,
                    forall|i: int|
                        0 <= i < before.len() ==> (#[trigger] out@[i]).0@ == prev[i].0 && *out@[i].1 == prev[i].1,
                    forall|i: int|
                        0 <= i < t ==> (#[trigger] out@[before.len() + i]).0@ == schema.name@ && *out@[before.len()
                            + i].1 == schema.tables@[i],
                decreases schema.tables@.len() - t,
            {
                out.push((schema.name.clone(), &schema.tables[t]));
                t += 1;
            }
            proof {
                let sp = tree.schemas@.take(s + 1);
                assert(sp.drop_last() =~= tree.schemas@.take(s as int));
                assert(sp.last() == *schema);
                let next = schema_tables(sp);
                assert(next == prev + schema.tables@.map_values(|t: Table| (schema.name@, t)));
                assert forall|i: int| 0 <= i < out@.len() implies (#[trigger] out@[i]).0@ == next[i].0
                    && *out@[i].1 == next[i].1 by {
                    if i >= before.len() {
                        let j = i - before.len();
                        assert(out@[before.len() + j] == out@[i]);
                    }
                }
            }
            s += 1;
        }
        proof {
            assert(tree.schemas@.take(s as int) =~= tree.schemas@);
        }
    } else {
        let mut t: usize = 0;
        while t < tree.tables.len()
            invariant
                tree.schemas@.len() == 0,
                t <= tree.tables@.len(),
                out@.len() == t,
                forall|i: int|
                    0 <= i < t ==> (#[trigger] out@[i]).0@ == Seq::<char>::empty() && *out@[i].1 == tree.tables@[i],
            decreases tree.tables@.len() - t,
        {
            out.push((String::new(), &tree.tables[t]));
            t += 1;
        }
    }
    out
}

/// `ts` holds a box for each table the diagram draws, in the tree's order.
pub open spec fn nodes_of(tree: SchemaTree, ts: Seq<DiagramTable>) -> bool {
    let c = tables_spec(tree);
    &&& ts.len() == c.len()
    &&& forall|i: int|
        0 <= i < c.len() ==> node_matches(#[trigger] ts[i], c[i].0, c[i].1, tree.relationships@)
}

/// `es` holds an edge for each relationship of the tree, in its order.
pub open spec fn edges_of(tree: SchemaTree, es: Seq<DiagramEdge>) -> bool {
    &&& es.len() == tree.relationships@.len()
    &&& forall|i: int| 0 <= i < es.len() ==> edge_matches(#[trigger] es[i], tree.relationships@[i])
}

/// The diagram of a schema tree: a box for each table and an edge for each
/// foreign key, each list stably sorted by id in `localeCompare` order.
pub fn build_graph(tree: &SchemaTree) -> (r: DiagramGraph)
    ensures
        exists|ts: Seq<DiagramTable>| nodes_of(*tree, ts) && r.tables@ == sorted_by_key(ts),
        exists|es: Seq<DiagramEdge>| edges_of(*tree, es) && r.edges@ == sorted_by_key(es),
{
    let fk = collect_foreign_key_columns(&tree.relationships);
    let collected = collect_tables(tree);
    let ghost c = tables_spec(*tree);
    let ghost rels = tree.relationships@;
    let mut nodes: Vec<DiagramTable> = Vec::new();
    let mut i: usize = 0;
    while i < collected.len()
        invariant
            i <= collected@.len(),
            c == tables_spec(*tree),
            rels == tree.relationships@,
            collected@.len() == c.len(),
            forall|x: int|
                0 <= x < collected@.len() ==> (#[trigger] collected@[x]).0@ == c[x].0 && *collected@[x].1 == c[x].1,
            forall|id: Seq<char>| #[trigger] has_id(fk@, id) == fk_upto(rels, rels.len() as int, id),
            nodes@.len() == i,
            forall|x: int| 0 <= x < i ==> node_matches(#[trigger] nodes@[x], c[x].0, c[x].1, rels),
        decreases collected@.len() - i,
    {
        let (schema, table) = &collected[i];
        let node = make_table_node(schema.as_str(), table, &fk, Ghost(rels));
        nodes.push(node);
        i += 1;
    }
    let ghost ts = nodes@;
    assert(nodes_of(*tree, ts));
    let tables = sort_by_key(nodes);
    let mut es: Vec<DiagramEdge> = Vec::new();
    let mut e: usize = 0;
    while e < tree.relationships.len()
        invariant
            e <= tree.relationships@.len(),
            es@.len() == e,
            forall|x: int| 0 <= x < e ==> edge_matches(#[trigger] es@[x], tree.relationships@[x]),
        decreases tree.relationships@.len() - e,
    {
        es.push(make_edge(&tree.relationships[e]));
        e += 1;
    }
    let ghost all_edges = es@;
    assert(edges_of(*tree, all_edges));
    let edges = sort_by_key(es);
    DiagramGraph { tables, edges }
}

} // verus!

verus! {

// ─── Copies ────────────────────────────────────────────────────────────────

/// Two columns that read the same.
pub open spec fn same_column(a: DiagramColumn, b: DiagramColumn) -> bool {
    &&& a.id@ == b.id@
    &&& a.name@ == b.name@
    &&& a.column_type@ == b.column_type@
    &&& a.key@ == b.key@
    &&& a.is_primary_key == b.is_primary_key
    &&& a.is_foreign_key == b.is_foreign_key
}

/// Two boxes that read the same.
pub open spec fn same_table(a: DiagramTable, b: DiagramTable) -> bool {
    &&& a.id@ == b.id@
    &&& a.schema_name@ == b.schema_name@
    &&& a.table_name@ == b.table_name@
    &&& a.title@ == b.title@
    &&& a.width == b.width
    &&& a.height == b.height
    &&& a.columns@.len() == b.columns@.len()
    &&& forall|k: int| 0 <= k < a.columns@.len() ==> same_column(#[trigger] a.columns@[k], b.columns@[k])
}

/// Two lists of strings that read the same.
pub open spec fn same_strings(a: Seq<String>, b: Seq<String>) -> bool {
    a.len() == b.len() && forall|k: int| 0 <= k < a.len() ==> (#[trigger] a[k])@ == b[k]@
}

/// Two edges that read the same.
pub open spec fn same_edge(a: DiagramEdge, b: DiagramEdge) -> bool {
    &&& a.id@ == b.id@
    &&& a.constraint_name@ == b.constraint_name@
    &&& a.source_table_id@ == b.source_table_id@
    &&& a.target_table_id@ == b.target_table_id@
    &&& same_strings(a.source_column_ids@, b.source_column_ids@)
    &&& same_strings(a.target_column_ids@, b.target_column_ids@)
    &&& a.on_update@ == b.on_update@
    &&& a.on_delete@ == b.on_delete@
    &&& a.is_self_referential == b.is_self_referential
}

pub open spec fn same_tables(a: Seq<DiagramTable>, b: Seq<DiagramTable>) -> bool {
    a.len() == b.len() && forall|k: int| 0 <= k < a.len() ==> same_table(#[trigger] a[k], b[k])
}

pub open spec fn same_edges(a: Seq<DiagramEdge>, b: Seq<DiagramEdge>) -> bool {
    a.len() == b.len() && forall|k: int| 0 <= k < a.len() ==> same_edge(#[trigger] a[k], b[k])
}

fn copy_column(c: &DiagramColumn) -> (r: DiagramColumn)
    ensures
        same_column(r, *c),
{
    DiagramColumn {
        id: c.id.clone(),
        name: c.name.clone(),
        column_type: c.column_type.clone(),
        key: c.key.clone(),
        is_primary_key: c.is_primary_key,
        is_foreign_key: c.is_foreign_key,
    }
}

fn copy_table(t: &DiagramTable) -> (r: DiagramTable)
    ensures
        same_table(r, *t),
{
    let mut columns: Vec<DiagramColumn> = Vec::new();
    let mut k: usize = 0;
    while k < t.columns.len()
        invariant
            k <= t.columns@.len(),
            columns@.len() == k,
            forall|x: int| 0 <= x < k ==> same_column(#[trigger] columns@[x], t.columns@[x]),
        decreases t.columns@.len() - k,
    {
        columns.push(copy_column(&t.columns[k]));
        k += 1;
    }
    DiagramTable {
        id: t.id.clone(),
        schema_name: t.schema_name.clone(),
        table_name: t.table_name.clone(),
        title: t.title.clone(),
        width: t.width,
        height: t.height,
        columns,
    }
}

pub(crate) fn copy_strings(v: &Vec<String>) -> (r: Vec<String>)
    ensures
        same_strings(r@, v@),
{
    let mut out: Vec<String> = Vec::new();
    let mut k: usize = 0;
    while k < v.len()
        invariant
            k <= v@.len(),
            out@.len() == k,
            forall|x: int| 0 <= x < k ==> (#[trigger] out@[x])@ == v@[x]@,
        decreases v@.len() - k,
    {
        out.push(v[k].clone());
        k += 1;
    }
    out
}

fn copy_edge(e: &DiagramEdge) -> (r: DiagramEdge)
    ensures
        same_edge(r, *e),
{
    DiagramEdge {
        id: e.id.clone(),
        constraint_name: e.constraint_name.clone(),
        source_table_id: e.source_table_id.clone(),
        target_table_id: e.target_table_id.clone(),
        source_column_ids: copy_strings(&e.source_column_ids),
        target_column_ids: copy_strings(&e.target_column_ids),
        on_update: e.on_update.clone(),
        on_delete: e.on_delete.clone(),
        is_self_referential: e.is_self_referential,
    }
}

// ─── Filtering ─────────────────────────────────────────────────────────────

/// `needle` occurs in `h`.
pub open spec fn text_has(h: Seq<char>, needle: Seq<char>) -> bool {
    contains_bytes(encode_utf8(h), encode_utf8(needle))
}

/// A box the filter hits: by its title, its table's name or one of its
/// columns' names, each lowercased.
pub open spec fn table_hit(t: DiagramTable, needle: Seq<char>) -> bool {
    ||| text_has(str_lower(t.title@), needle)
    ||| text_has(str_lower(t.table_name@), needle)
    ||| exists|k: int| 0 <= k < t.columns@.len() && text_has(str_lower((#[trigger] t.columns@[k]).name@), needle)
}

/// Some box with id `id` is hit.
pub open spec fn id_hit(tables: Seq<DiagramTable>, needle: Seq<char>, id: Seq<char>) -> bool {
    exists|i: int| 0 <= i < tables.len() && (#[trigger] tables[i]).id@ == id && table_hit(tables[i], needle)
}

/// Edge `e` touches a hit box.
pub open spec fn edge_hit(g: DiagramGraph, needle: Seq<char>, e: DiagramEdge) -> bool {
    id_hit(g.tables@, needle, e.source_table_id@) || id_hit(g.tables@, needle, e.target_table_id@)
}

/// An id the filtered diagram keeps: a hit box, or an end of an edge that
/// touches one.
pub open spec fn id_visible(g: DiagramGraph, needle: Seq<char>, id: Seq<char>) -> bool {
    ||| id_hit(g.tables@, needle, id)
    ||| exists|e: int|
        0 <= e < g.edges@.len() && edge_hit(g, needle, #[trigger] g.edges@[e]) && (g.edges@[e].source_table_id@
            == id || g.edges@[e].target_table_id@ == id)
}

/// The filter as it is applied: trimmed and lowercased.
pub open spec fn needle_of(filter: Seq<char>) -> Seq<char> {
    str_lower(trim_spec(filter))
}

/// The boxes a filter keeps: all of them for an empty filter.
pub open spec fn kept_tables(g: DiagramGraph, filter: Seq<char>) -> Seq<DiagramTable> {
    let needle = needle_of(filter);
    if needle.len() == 0 {
        g.tables@
    } else {
        g.tables@.filter(|t: DiagramTable| id_visible(g, needle, t.id@))
    }
}

/// The edges a filter keeps: those with both ends kept.
pub open spec fn kept_edges(g: DiagramGraph, filter: Seq<char>) -> Seq<DiagramEdge> {
    let needle = needle_of(filter);
    if needle.len() == 0 {
        g.edges@
    } else {
        g.edges@.filter(
            |e: DiagramEdge| id_visible(g, needle, e.source_table_id@) && id_visible(g, needle, e.target_table_id@),
        )
    }
}

fn lower_has(h: &str, needle: &str) -> (r: bool)
    ensures
        r == text_has(str_lower(h@), needle@),
{
    let lower = to_lowercase(h);
    str_contains(lower.as_str(), needle)
}

fn is_table_hit(t: &DiagramTable, needle: &str) -> (r: bool)
    ensures
        r == table_hit(*t, needle@),
{
    if lower_has(t.title.as_str(), needle) || lower_has(t.table_name.as_str(), needle) {
        return true;
    }
    let mut k: usize = 0;
    while k < t.columns.len()
        invariant
            k <= t.columns@.len(),
            forall|x: int| 0 <= x < k ==> !text_has(str_lower((#[trigger] t.columns@[x]).name@), needle@),
        decreases t.columns@.len() - k,
    {
        if lower_has(t.columns[k].name.as_str(), needle) {
            return true;
        }
        k += 1;
    }
    false
}

pub(crate) fn push_id(out: &mut Vec<String>, id: &String)
    ensures
        forall|x: Seq<char>| #[trigger] has_id(final(out)@, x) == (has_id(old(out)@, x) || x == id@),
{
    let ghost prev = out@;
    out.push(id.clone());
    proof {
        assert forall|x: Seq<char>| #[trigger] has_id(out@, x) == (has_id(prev, x) || x == id@) by {
            if has_id(prev, x) {
                let j = choose|j: int| 0 <= j < prev.len() && (#[trigger] prev[j])@ == x;
                assert(out@[j] == prev[j]);
            }
            if x == id@ {
                assert(out@[prev.len() as int]@ == x);
            }
            if has_id(out@, x) {
                let j = choose|j: int| 0 <= j < out@.len() && (#[trigger] out@[j])@ == x;
                if j < prev.len() {
                    assert(out@[j] == prev[j]);
                }
            }
        }
    }
}

/// The diagram cut down to the boxes a filter hits and their neighbours.
pub fn filter_graph(graph: &DiagramGraph, filter: &str) -> (r: DiagramGraph)
    ensures
        same_tables(r.tables@, kept_tables(*graph, filter@)),
        same_edges(r.edges@, kept_edges(*graph, filter@)),
{
    let trimmed = trim(filter);
    let normalized = to_lowercase(trimmed.as_str());
    let ghost needle = needle_of(filter@);
    assert(normalized@ == needle);
    let tables = &graph.tables;
    let edges = &graph.edges;
    if normalized.as_str().is_empty() {
        let mut ts: Vec<DiagramTable> = Vec::new();
        let mut i: usize = 0;
        while i < tables.len()
            invariant
                i <= tables@.len(),
                ts@.len() == i,
                forall|x: int| 0 <= x < i ==> same_table(#[trigger] ts@[x], tables@[x]),
            decreases tables@.len() - i,
        {
            ts.push(copy_table(&tables[i]));
            i += 1;
        }
        let mut es: Vec<DiagramEdge> = Vec::new();
        let mut j: usize = 0;
        while j < edges.len()
            invariant
                j <= edges@.len(),
                es@.len() == j,
                forall|x: int| 0 <= x < j ==> same_edge(#[trigger] es@[x], edges@[x]),
            decreases edges@.len() - j,
        {
            es.push(copy_edge(&edges[j]));
            j += 1;
        }
        return DiagramGraph { tables: ts, edges: es };
    }
    let needle_str = normalized.as_str();
    // The ids of the boxes the filter hits.
    let mut matching: Vec<String> = Vec::new();
    let mut i: usize = 0;
    while i < tables.len()
        invariant
            i <= tables@.len(),
            *tables == graph.tables,
            needle_str@ == needle,
            forall|x: Seq<char>|
                #[trigger] has_id(matching@, x) == id_hit(tables@.take(i as int), needle, x),
        decreases tables@.len() - i,
    {
        let ghost prev = matching@;
        if is_table_hit(&tables[i], needle_str) {
            push_id(&mut matching, &tables[i].id);
        }
        proof {
            assert forall|x: Seq<char>| #[trigger] has_id(matching@, x) == id_hit(
                tables@.take(i + 1),
                needle,
                x,
            ) by {
                let t = tables@.take(i + 1);
                if id_hit(t, needle, x) {
                    let w = choose|w: int| 0 <= w < t.len() && (#[trigger] t[w]).id@ == x && table_hit(t[w], needle);
                    if w < i {
                        assert(tables@.take(i as int)[w] == t[w]);
                    }
                }
                if id_hit(tables@.take(i as int), needle, x) {
                    let w = choose|w: int|
                        0 <= w < i && (#[trigger] tables@.take(i as int)[w]).id@ == x && table_hit(
                            tables@.take(i as int)[w],
                            needle,
                        );
                    assert(t[w] == tables@.take(i as int)[w]);
                }
                if table_hit(tables@[i as int], needle) && x == tables@[i as int].id@ {
                    assert(t[i as int] == tables@[i as int]);
                }
            }
        }
        i += 1;
    }
    proof {
        assert(tables@.take(i as int) =~= tables@);
    }
    // The ids kept: the hits and both ends of each edge touching one.
    let mut visible: Vec<String> = copy_strings(&matching);
    proof {
        assert forall|x: Seq<char>| #[trigger] has_id(visible@, x) == has_id(matching@, x) by {
            if has_id(visible@, x) {
                let w = choose|w: int| 0 <= w < visible@.len() && (#[trigger] visible@[w])@ == x;
                assert(matching@[w]@ == x);
            }
            if has_id(matching@, x) {
                let w = choose|w: int| 0 <= w < matching@.len() && (#[trigger] matching@[w])@ == x;
                assert(visible@[w]@ == x);
            }
        }
    }
    let mut e: usize = 0;
    while e < edges.len()
        invariant
            e <= edges@.len(),
            *edges == graph.edges,
            *tables == graph.tables,
            forall|x: Seq<char>| #[trigger] has_id(matching@, x) == id_hit(tables@, needle, x),
            forall|x: Seq<char>|
                #[trigger] has_id(visible@, x) == (id_hit(tables@, needle, x) || exists|k: int|
                    0 <= k < e && edge_hit(*graph, needle, #[trigger] edges@[k]) && (edges@[k].source_table_id@
                        == x || edges@[k].target_table_id@ == x)),
        decreases edges@.len() - e,
    {
        let edge = &edges[e];
        let ghost prev = visible@;
        let touches = contains_id(&matching, edge.source_table_id.as_str()) || contains_id(
            &matching,
            edge.target_table_id.as_str(),
        );
        if touches {
            push_id(&mut visible, &edge.source_table_id);
            let ghost mid = visible@;
            push_id(&mut visible, &edge.target_table_id);
        }
        proof {
            assert forall|x: Seq<char>| #[trigger] has_id(visible@, x) == (id_hit(tables@, needle, x) || exists|k: int|
                0 <= k < e + 1 && edge_hit(*graph, needle, #[trigger] edges@[k]) && (edges@[k].source_table_id@
                    == x || edges@[k].target_table_id@ == x)) by {
                if exists|k: int|
                    0 <= k < e + 1 && edge_hit(*graph, needle, #[trigger] edges@[k]) && (
                    edges@[k].source_table_id@ == x || edges@[k].target_table_id@ == x) {
                    let k = choose|k: int|
                        0 <= k < e + 1 && edge_hit(*graph, needle, #[trigger] edges@[k]) && (
                        edges@[k].source_table_id@ == x || edges@[k].target_table_id@ == x);
                    if k < e {
                        assert(has_id(prev, x));
                    }
                }
                if has_id(prev, x) && !id_hit(tables@, needle, x) {
                    let k = choose|k: int|
                        0 <= k < e && edge_hit(*graph, needle, #[trigger] edges@[k]) && (
                        edges@[k].source_table_id@ == x || edges@[k].target_table_id@ == x);
                    assert(0 <= k < e + 1);
                }
            }
        }
        e += 1;
    }
    assert forall|x: Seq<char>| #[trigger] has_id(visible@, x) == id_visible(*graph, needle, x) by {}
    // The boxes and edges kept, in their order.
    let ghost tpred = |t: DiagramTable| id_visible(*graph, needle, t.id@);
    let mut ts: Vec<DiagramTable> = Vec::new();
    let mut i: usize = 0;
    while i < tables.len()
        invariant
            i <= tables@.len(),
            *tables == graph.tables,
            tpred == (|t: DiagramTable| id_visible(*graph, needle, t.id@)),
            forall|x: Seq<char>| #[trigger] has_id(visible@, x) == id_visible(*graph, needle, x),
            same_tables(ts@, tables@.take(i as int).filter(tpred)),
        decreases tables@.len() - i,
    {
        proof {
            assert(tables@.take(i + 1).drop_last() =~= tables@.take(i as int));
        }
        let ghost before = ts@;
        if contains_id(&visible, tables[i].id.as_str()) {
            ts.push(copy_table(&tables[i]));
        }
        proof {
            reveal(Seq::filter);
            let t = tables@.take(i + 1);
            assert(t.last() == tables@[i as int]);
            assert(t.filter(tpred) == if tpred(tables@[i as int]) {
                tables@.take(i as int).filter(tpred).push(tables@[i as int])
            } else {
                tables@.take(i as int).filter(tpred)
            });
        }
        i += 1;
    }
    let ghost epred = |x: DiagramEdge| id_visible(*graph, needle, x.source_table_id@) && id_visible(
        *graph,
        needle,
        x.target_table_id@,
    );
    let mut es: Vec<DiagramEdge> = Vec::new();
    let mut j: usize = 0;
    while j < edges.len()
        invariant
            j <= edges@.len(),
            *edges == graph.edges,
            epred == (|x: DiagramEdge|
                id_visible(*graph, needle, x.source_table_id@) && id_visible(*graph, needle, x.target_table_id@)),
            forall|x: Seq<char>| #[trigger] has_id(visible@, x) == id_visible(*graph, needle, x),
            same_edges(es@, edges@.take(j as int).filter(epred)),
        decreases edges@.len() - j,
    {
        proof {
            assert(edges@.take(j + 1).drop_last() =~= edges@.take(j as int));
        }
        if contains_id(&visible, edges[j].source_table_id.as_str()) && contains_id(
            &visible,
            edges[j].target_table_id.as_str(),
        ) {
            es.push(copy_edge(&edges[j]));
        }
        proof {
            reveal(Seq::filter);
            let t = edges@.take(j + 1);
            assert(t.last() == edges@[j as int]);
            assert(t.filter(epred) == if epred(edges@[j as int]) {
                edges@.take(j as int).filter(epred).push(edges@[j as int])
            } else {
                edges@.take(j as int).filter(epred)
            });
        }
        j += 1;
    }
    proof {
        assert(tables@.take(i as int) =~= tables@);
        assert(edges@.take(j as int) =~= edges@);
    }
    DiagramGraph { tables: ts, edges: es }
}

} // verus!

verus! {

// ─── Layouts ───────────────────────────────────────────────────────────────

/// The position a layout gives `id`, if any: that of its first entry.
pub open spec fn lookup<P>(layout: Seq<(String, P)>, id: Seq<char>) -> Option<P> {
    match first_where(layout, |e: (String, P)| e.0@ == id) {
        Some(i) => Some(layout[i].1),
        None => None,
    }
}

/// The position of box `id`: the one the user left it at, else the default
/// one, else `origin`.
pub open spec fn merged_position<P>(
    default: Seq<(String, P)>,
    persisted: Option<Seq<(String, P)>>,
    origin: P,
    id: Seq<char>,
) -> P {
    let saved = match persisted {
        Some(l) => lookup(l, id),
        None => None,
    };
    match saved {
        Some(p) => p,
        None => match lookup(default, id) {
            Some(p) => p,
            None => origin,
        },
    }
}

fn find_position<P: Copy>(layout: &Vec<(String, P)>, id: &str) -> (r: Option<P>)
    ensures
        r == lookup(layout@, id@),
{
    let ghost pred = |e: (String, P)| e.0@ == id@;
    let mut i: usize = 0;
    while i < layout.len()
        invariant
            i <= layout@.len(),
            pred == (|e: (String, P)| e.0@ == id@),
            forall|k: int| 0 <= k < i ==> !pred(#[trigger] layout@[k]),
        decreases layout@.len() - i,
    {
        if str_eq(layout[i].0.as_str(), id) {
            proof {
                lemma_first_found(layout@, pred, i as int);
            }
            return Some(layout[i].1);
        }
        i += 1;
    }
    proof {
        lemma_first_none(layout@, pred);
    }
    None
}

/// `r` has a position for each box, in the diagram's order: where the user
/// left it, else where the default layout puts it, else `origin`.
pub open spec fn is_merged_layout<P>(
    r: Seq<(String, P)>,
    tables: Seq<DiagramTable>,
    default: Seq<(String, P)>,
    persisted: Option<Seq<(String, P)>>,
    origin: P,
) -> bool {
    &&& r.len() == tables.len()
    &&& forall|i: int|
        0 <= i < r.len() ==> (#[trigger] r[i]).0@ == tables[i].id@ && r[i].1 == merged_position(
            default,
            persisted,
            origin,
            tables[i].id@,
        )
}

/// A position for each box of the diagram, in the diagram's order: where the
/// user left it, else where the default layout puts it, else `origin`.
pub fn merge_layout<P: Copy>(
    graph: &DiagramGraph,
    default: &Vec<(String, P)>,
    persisted: Option<&Vec<(String, P)>>,
    origin: P,
) -> (r: Vec<(String, P)>)
    ensures
        is_merged_layout(
            r@,
            graph.tables@,
            default@,
            match persisted {
                Some(l) => Some(l@),
                None => None,
            },
            origin,
        ),
{
    let ghost saved = match persisted {
        Some(l) => Some(l@),
        None => None::<Seq<(String, P)>>,
    };
    let mut out: Vec<(String, P)> = Vec::new();
    let mut i: usize = 0;
    while i < graph.tables.len()
        invariant
            i <= graph.tables@.len(),
            saved == match persisted {
                Some(l) => Some(l@),
                None => None::<Seq<(String, P)>>,
            },
            out@.len() == i,
            forall|k: int|
                0 <= k < i ==> (#[trigger] out@[k]).0@ == graph.tables@[k].id@ && out@[k].1 == merged_position(
                    default@,
                    saved,
                    origin,
                    graph.tables@[k].id@,
                ),
        decreases graph.tables@.len() - i,
    {
        let id = graph.tables[i].id.as_str();
        let from_saved = match persisted {
            Some(l) => find_position(l, id),
            None => None,
        };
        let p = match from_saved {
            Some(p) => p,
            None => match find_position(default, id) {
                Some(p) => p,
                None => origin,
            },
        };
        out.push((graph.tables[i].id.clone(), p));
        i += 1;
    }
    out
}

/// The ids of the tables, joined with `|`.
pub open spec fn ids_joined(ts: Seq<DiagramTable>) -> Seq<char>
    decreases ts.len(),
{
    if ts.len() == 0 {
        Seq::empty()
    } else if ts.len() == 1 {
        ts[0].id@
    } else {
        ids_joined(ts.drop_last()) + seq!['|'] + ts.last().id@
    }
}

/// What a diagram's layout is remembered by: the schema's hash and the
/// tables' ids (`hash:id|id|…`), or nothing without a hash.
pub open spec fn diagram_key_spec(hash: Seq<char>, tables: Seq<DiagramTable>) -> Seq<char> {
    if hash.len() == 0 {
        Seq::empty()
    } else {
        hash + seq![':'] + ids_joined(tables)
    }
}

/// The key a diagram's layout is remembered by.
pub fn diagram_key(hash: &str, graph: &DiagramGraph) -> (r: String)
    ensures
        r@ == diagram_key_spec(hash@, graph.tables@),
{
    let mut r = String::new();
    if hash.is_empty() {
        return r;
    }
    r.append(hash);
    push_char(&mut r, ':');
    let ghost head = hash@ + seq![':'];
    let mut i: usize = 0;
    proof {
        assert(r@ =~= head + ids_joined(graph.tables@.take(0)));
    }
    while i < graph.tables.len()
        invariant
            i <= graph.tables@.len(),
            r@ == head + ids_joined(graph.tables@.take(i as int)),
        decreases graph.tables@.len() - i,
    {
        let ghost ts = graph.tables@.take(i + 1);
        proof {
            assert(ts.drop_last() =~= graph.tables@.take(i as int));
        }
        if i > 0 {
            push_char(&mut r, '|');
        }
        r.append(graph.tables[i].id.as_str());
        proof {
            if i == 0 {
                assert(r@ =~= head + ids_joined(ts));
            } else {
                assert(r@ =~= head + ids_joined(ts));
            }
        }
        i += 1;
    }
    proof {
        assert(graph.tables@.take(i as int) =~= graph.tables@);
    }
    r
}

/// Brings the layout up to date with the diagram when the key it was made
/// for (`key`, `""` when the diagram has no key) changed: boxes keep where
/// they were saved, else where they were, else where the default layout puts
/// them; the selected edge falls back to the first edge when it is gone.
/// Says whether the new layout should be saved: when the diagram has a
/// hash and there was a layout before.
pub fn refresh_layout<P: Copy>(
    layout: &mut Vec<(String, P)>,
    layout_key: &mut String,
    selected_edge: &mut String,
    key: String,
    graph: &DiagramGraph,
    default: &Vec<(String, P)>,
    persisted: Option<Vec<(String, P)>>,
    has_hash: bool,
    origin: P,
) -> (save: bool)
    ensures
        old(layout_key)@ == key@ ==> !save && *final(layout) == *old(layout) && *final(layout_key)
            == *old(layout_key) && *final(selected_edge) == *old(selected_edge),
        old(layout_key)@ != key@ ==> {
            let had_prev = old(layout)@.len() > 0;
            let carry = match persisted {
                Some(l) => Some(l@),
                None => if had_prev {
                    Some(old(layout)@)
                } else {
                    None
                },
            };
            &&& final(layout_key)@ == key@
            &&& is_merged_layout(final(layout)@, graph.tables@, default@, carry, origin)
            &&& save == (has_hash && had_prev)
            &&& final(selected_edge)@ == selected_edge_spec(graph.edges@, old(selected_edge)@)
        },
{
    if str_eq(layout_key.as_str(), key.as_str()) {
        return false;
    }
    let mut prev: Vec<(String, P)> = Vec::new();
    std::mem::swap(&mut prev, layout);
    let had_prev = prev.len() > 0;
    *layout_key = key;
    let carry = match persisted {
        Some(l) => Some(l),
        None => if had_prev {
            Some(prev)
        } else {
            None
        },
    };
    let merged = match &carry {
        Some(l) => merge_layout(graph, default, Some(l), origin),
        None => merge_layout(graph, default, None, origin),
    };
    *layout = merged;
    let fixed = effective_selected_edge_id(graph.edges.as_slice(), selected_edge.as_str());
    *selected_edge = fixed;
    has_hash && had_prev
}

/// The saved layouts, one for each connection and schema, under the keys
/// that `key` makes.
pub struct LayoutStore<P> {
    pub layouts: Vec<(String, Vec<(String, P)>)>,
}

impl<P> LayoutStore<P> {
    /// The key of a saved layout: `conn_id::hash`.
    pub fn key(conn_id: &str, hash: &str) -> (r: String)
        ensures
            r@ == conn_id@ + "::"@ + hash@,
    {
        let mut r = String::new();
        r.append(conn_id);
        r.append("::");
        r.append(hash);
        r
    }
}

// ─── Schema fingerprints ───────────────────────────────────────────────────

/// The UTF-16 code units of a char: itself, or a surrogate pair.
pub open spec fn utf16_code_units(c: char) -> Seq<u32> {
    let v = c as u32;
    if v >= 0x10000 {
        seq![(0xD800 + (v - 0x10000) / 1024) as u32, (0xDC00 + (v - 0x10000) % 1024) as u32]
    } else {
        seq![v]
    }
}

/// The UTF-16 code units of a text.
pub open spec fn utf16_of(s: Seq<char>) -> Seq<u32>
    decreases s.len(),
{
    if s.len() == 0 {
        Seq::empty()
    } else {
        utf16_of(s.drop_last()) + utf16_code_units(s.last())
    }
}

/// One FNV-1a step on 32 bits.
pub open spec fn fnv_step(h: u32, unit: u32) -> u32 {
    (((h ^ unit) as int * 16777619) % 0x1_0000_0000) as u32
}

/// FNV-1a over a run of code units, from `h`.
pub open spec fn fnv_from(h: u32, units: Seq<u32>) -> u32
    decreases units.len(),
{
    if units.len() == 0 {
        h
    } else {
        fnv_step(fnv_from(h, units.drop_last()), units.last())
    }
}

/// 32-bit FNV-1a over the UTF-16 code units of a text.
pub open spec fn fnv1a_spec(s: Seq<char>) -> u32 {
    fnv_from(2166136261, utf16_of(s))
}

fn fnv_unit(h: u32, unit: u32) -> (r: u32)
    ensures
        r == fnv_step(h, unit),
{
    let x = h ^ unit;
    let wide: u64 = x as u64 * 16777619u64;
    (wide % 0x1_0000_0000u64) as u32
}

proof fn lemma_fnv_concat(h: u32, a: Seq<u32>, b: Seq<u32>)
    ensures
        fnv_from(h, a + b) == fnv_from(fnv_from(h, a), b),
    decreases b.len(),
{
    if b.len() == 0 {
        assert(a + b =~= a);
    } else {
        lemma_fnv_concat(h, a, b.drop_last());
        assert((a + b).drop_last() =~= a + b.drop_last());
    }
}

/// 32-bit FNV-1a over the UTF-16 code units of `s`.
pub fn fnv1a_utf16(s: &str) -> (r: u32)
    ensures
        r == fnv1a_spec(s@),
{
    let chars = chars_vec(s);
    let mut h: u32 = 2166136261;
    let mut i: usize = 0;
    while i < chars.len()
        invariant
            chars@ == s@,
            i <= chars@.len(),
            h == fnv_from(2166136261, utf16_of(chars@.take(i as int))),
        decreases chars@.len() - i,
    {
        let c = chars[i];
        let v: u32 = c as u32;
        let ghost before = h;
        proof {
            assert(chars@.take(i + 1).drop_last() =~= chars@.take(i as int));
            assert(chars@.take(i + 1).last() == c);
            assert(utf16_of(chars@.take(i + 1)) == utf16_of(chars@.take(i as int)) + utf16_code_units(c));
            lemma_fnv_concat(2166136261, utf16_of(chars@.take(i as int)), utf16_code_units(c));
        }
        if v >= 0x10000 {
            let hi: u32 = 0xD800 + (v - 0x10000) / 1024;
            let lo: u32 = 0xDC00 + (v - 0x10000) % 1024;
            h = fnv_unit(h, hi);
            h = fnv_unit(h, lo);
            proof {
                let u = utf16_code_units(c);
                assert(u =~= seq![hi, lo]);
                assert(u.drop_last() =~= seq![hi]);
                assert(seq![hi].drop_last() =~= Seq::<u32>::empty());
                assert(fnv_from(before, Seq::<u32>::empty()) == before);
                assert(seq![hi].last() == hi);
                assert(fnv_from(before, seq![hi]) == fnv_step(before, hi));
                assert(u.last() == lo);
                assert(fnv_from(before, u) == fnv_step(fnv_step(before, hi), lo));
            }
        } else {
            h = fnv_unit(h, v);
            proof {
                assert(utf16_code_units(c) =~= seq![v]);
                assert(utf16_code_units(c).drop_last() =~= Seq::<u32>::empty());
                assert(fnv_from(before, Seq::<u32>::empty()) == before);
                assert(seq![v].last() == v);
                assert(fnv_from(before, seq![v]) == fnv_step(before, v));
            }
        }
        i += 1;
    }
    proof {
        assert(chars@.take(i as int) =~= chars@);
    }
    h
}

/// The lowercase hex digit of `d`.
pub open spec fn hex_digit(d: int) -> char {
    if d < 10 {
        (('0' as int) + d) as char
    } else {
        (('a' as int) + d - 10) as char
    }
}

/// `16` to the power `n`.
pub open spec fn pow16(n: int) -> int
    decreases n,
{
    if n <= 0 {
        1
    } else {
        16 * pow16(n - 1)
    }
}

proof fn lemma_pow16_positive(n: int)
    ensures
        pow16(n) >= 1,
    decreases n,
{
    if n > 0 {
        lemma_pow16_positive(n - 1);
    }
}

/// `h` as eight lowercase hex digits.
pub open spec fn hex8_spec(h: u32) -> Seq<char> {
    Seq::new(8, |k: int| hex_digit((h as int / pow16(7 - k)) % 16))
}

fn hex8(h: u32) -> (r: String)
    ensures
        r@ == hex8_spec(h),
{
    let mut r = String::new();
    let mut divisor: u32 = 0x1000_0000;
    proof {
        assert(pow16(7) == 0x1000_0000) by {
            reveal_with_fuel(pow16, 8);
        }
    }
    let mut k: usize = 0;
    while k < 8
        invariant
            k <= 8,
            k < 8 ==> divisor == pow16(7 - k) && divisor > 0,
            r@ == hex8_spec(h).take(k as int),
        decreases 8 - k,
    {
        let d = (h / divisor) % 16;
        let c: char = if d < 10 {
            ((48u32 + d) as u8) as char
        } else {
            ((87u32 + d) as u8) as char
        };
        push_char(&mut r, c);
        proof {
            assert(c == hex_digit((h as int / pow16(7 - k)) % 16));
            assert(r@ =~= hex8_spec(h).take(k + 1));
        }
        if k < 7 {
            proof {
                assert(pow16(7 - k) == 16 * pow16(6 - k));
                lemma_pow16_positive(6 - k);
            }
            divisor = divisor / 16;
        }
        k += 1;
    }
    r
}

/// FNV-1a over the UTF-16 code units of a text, as eight lowercase hex
/// digits.
pub fn fingerprint(text: &str) -> (r: String)
    ensures
        r@ == hex8_spec(fnv1a_spec(text@)),
{
    hex8(fnv1a_utf16(text))
}

/// The fingerprint of a schema, given as the JSON value it serializes to:
/// FNV-1a over the UTF-16 code units of its stable (key-sorted) JSON text.
pub fn schema_hash(tree: &JsonTree) -> (r: String)
    ensures
        r@ == hex8_spec(fnv1a_spec(canonical(*tree))),
{
    let text = stable_stringify(tree);
    fingerprint(text.as_str())
}

} // verus!
