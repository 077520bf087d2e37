//! The navigator tree, flattened into rows.
//!
//! The tree is walked into a flat list of rows. A row is a handful of
//! indices into the connection's schema (no strings, nothing cloned) plus
//! its indent, the gap above it and which kind of line it is, from which its
//! height follows at the current font scale. Only the rows inside the
//! viewport become elements, so the walk itself must be cheap and exact.
use crate::bytes::str_eq;
use crate::model::{display_positions, member_positions, ungrouped_positions, usize_ints, ActiveConnection, ServerGroup};
use crate::models::{Schema, SchemaTree, Table};
use crate::nav_index::{conn_listed, table_listed, Matches, NONE};

use crate::unicode::{trim, trim_spec};
use vstd::prelude::*;
use vstd::string::StringExecFns;

verus! {

broadcast use vstd::string::group_string_axioms;

/// Views or indexes: the two plain lists under a schema.
#[derive(Clone, Copy, Debug, PartialEq, Eq, Structural)]
pub enum Leaf {
    Views,
    Indexes,
}

/// What stands in for a connection's schema when there is none to show.
#[derive(Clone, Copy, Debug, PartialEq, Eq, Structural)]
pub enum Info {
    Loading,
    Error,
    NotLoaded,
}

// ─── Schema tree accessors ─────────────────────────────────────────────────

/// The schemas under database level `db` ([`NONE`]: the tree's own list).
pub open spec fn schemas_spec(tree: SchemaTree, db: u32) -> Seq<Schema> {
    if db == NONE {
        tree.schemas@
    } else if (db as int) < tree.databases@.len() {
        tree.databases@[db as int].schemas@
    } else {
        Seq::empty()
    }
}

pub open spec fn schema_spec(tree: SchemaTree, db: u32, schema: u32) -> Option<Schema> {
    if schema == NONE {
        None
    } else if (schema as int) < schemas_spec(tree, db).len() {
        Some(schemas_spec(tree, db)[schema as int])
    } else {
        None
    }
}

pub open spec fn tables_spec(tree: SchemaTree, db: u32, schema: u32) -> Seq<Table> {
    if schema == NONE {
        tree.tables@
    } else {
        match schema_spec(tree, db, schema) {
            Some(s) => s.tables@,
            None => Seq::empty(),
        }
    }
}

pub open spec fn views_spec(tree: SchemaTree, db: u32, schema: u32) -> Seq<Table> {
    if schema == NONE {
        tree.views@
    } else {
        match schema_spec(tree, db, schema) {
            Some(s) => s.views@,
            None => Seq::empty(),
        }
    }
}

pub open spec fn indexes_spec(tree: SchemaTree, db: u32, schema: u32) -> Seq<String> {
    if schema == NONE {
        tree.indexes@
    } else {
        match schema_spec(tree, db, schema) {
            Some(s) => s.indexes@,
            None => Seq::empty(),
        }
    }
}

pub open spec fn leaf_len(tree: SchemaTree, db: u32, schema: u32, leaf: Leaf) -> nat {
    match leaf {
        Leaf::Views => views_spec(tree, db, schema).len(),
        Leaf::Indexes => indexes_spec(tree, db, schema).len(),
    }
}

pub fn schemas_of(tree: &SchemaTree, db: u32) -> (r: &[Schema])
    ensures
        r@ == schemas_spec(*tree, db),
{
    if db == NONE {
        tree.schemas.as_slice()
    } else if (db as usize) < tree.databases.len() {
        tree.databases[db as usize].schemas.as_slice()
    } else {
        &[]
    }
}

pub fn schema_of(tree: &SchemaTree, db: u32, schema: u32) -> (r: Option<&Schema>)
    ensures
        match r {
            Some(s) => schema_spec(*tree, db, schema) == Some(*s),
            None => schema_spec(*tree, db, schema) is None,
        },
{
    if schema == NONE {
        None
    } else {
        let list = schemas_of(tree, db);
        if (schema as usize) < list.len() {
            Some(&list[schema as usize])
        } else {
            None
        }
    }
}

pub fn tables_of(tree: &SchemaTree, db: u32, schema: u32) -> (r: &[Table])
    ensures
        r@ == tables_spec(*tree, db, schema),
{
    if schema == NONE {
        tree.tables.as_slice()
    } else {
        match schema_of(tree, db, schema) {
            Some(s) => s.tables.as_slice(),
            None => &[],
        }
    }
}

pub fn views_of(tree: &SchemaTree, db: u32, schema: u32) -> (r: &[Table])
    ensures
        r@ == views_spec(*tree, db, schema),
{
    if schema == NONE {
        tree.views.as_slice()
    } else {
        match schema_of(tree, db, schema) {
            Some(s) => s.views.as_slice(),
            None => &[],
        }
    }
}

pub fn indexes_of(tree: &SchemaTree, db: u32, schema: u32) -> (r: &[String])
    ensures
        r@ == indexes_spec(*tree, db, schema),
{
    if schema == NONE {
        tree.indexes.as_slice()
    } else {
        match schema_of(tree, db, schema) {
            Some(s) => s.indexes.as_slice(),
            None => &[],
        }
    }
}

pub fn leaf_count(tree: &SchemaTree, db: u32, schema: u32, leaf: Leaf) -> (r: usize)
    ensures
        r == leaf_len(*tree, db, schema, leaf),
{
    match leaf {
        Leaf::Views => views_of(tree, db, schema).len(),
        Leaf::Indexes => indexes_of(tree, db, schema).len(),
    }
}

/// The name of item `item` of a leaf list, or "" past its end.
pub fn leaf_name(tree: &SchemaTree, db: u32, schema: u32, leaf: Leaf, item: u32) -> (r: &str)
    ensures
        r@ == match leaf {
            Leaf::Views => if (item as int) < views_spec(*tree, db, schema).len() {
                views_spec(*tree, db, schema)[item as int].name@
            } else {
                ""@
            },
            Leaf::Indexes => if (item as int) < indexes_spec(*tree, db, schema).len() {
                indexes_spec(*tree, db, schema)[item as int]@
            } else {
                ""@
            },
        },
{
    match leaf {
        Leaf::Views => {
            let list = views_of(tree, db, schema);
            if (item as usize) < list.len() {
                list[item as usize].name.as_str()
            } else {
                ""
            }
        },
        Leaf::Indexes => {
            let list = indexes_of(tree, db, schema);
            if (item as usize) < list.len() {
                list[item as usize].as_str()
            } else {
                ""
            }
        },
    }
}

/// The driver of a Postgres connection.
pub open spec fn is_postgres(conn: ActiveConnection) -> bool {
    conn.config.driver@ == "postgres"@
}

fn driver_is_postgres(conn: &ActiveConnection) -> (r: bool)
    ensures
        r == is_postgres(*conn),
{
    str_eq(conn.config.driver.as_str(), "postgres")
}

/// The database levels a connection's tree shows, as database positions
/// ([`NONE`] for the connection's own, unnamed or configured database):
/// every database of a Postgres tree that lists databases; one unnamed level
/// for a Postgres tree with schemas under a configured database, or for any
/// other driver's tree with schemas; none for a flat tree.
pub open spec fn schema_groups_spec(conn: ActiveConnection) -> Seq<u32> {
    match conn.schema {
        None => Seq::empty(),
        Some(s) => if is_postgres(conn) {
            if (*s).databases@.len() > 0 {
                Seq::new(((*s).databases@.len() as u32) as nat, |i: int| i as u32)
            } else if trim_spec(conn.config.database@).len() > 0 && (*s).schemas@.len() > 0 {
                seq![NONE]
            } else {
                Seq::empty()
            }
        } else if (*s).schemas@.len() > 0 {
            seq![NONE]
        } else {
            Seq::empty()
        },
    }
}

pub fn schema_groups(conn: &ActiveConnection) -> (r: Vec<u32>)
    ensures
        r@ == schema_groups_spec(*conn),
{
    let s = match &conn.schema {
        Some(s) => s,
        None => {
            return Vec::new();
        },
    };
    if driver_is_postgres(conn) {
        if s.databases.len() > 0 {
            #[verifier::truncate]
            let n: u32 = s.databases.len() as u32;
            let mut r: Vec<u32> = Vec::new();
            let mut i: u32 = 0;
            while i < n
                invariant
                    i <= n,
                    r@ == Seq::new(i as nat, |k: int| k as u32),
                decreases n - i,
            {
                r.push(i);
                proof {
                    assert(r@ =~= Seq::new((i + 1) as nat, |k: int| k as u32));
                }
                i += 1;
            }
            return r;
        }
        let db = trim(conn.config.database.as_str());
        if !db.as_str().is_empty() && s.schemas.len() > 0 {
            let mut r: Vec<u32> = Vec::new();
            r.push(NONE);
            return r;
        }
        return Vec::new();
    }
    if s.schemas.len() > 0 {
        let mut r: Vec<u32> = Vec::new();
        r.push(NONE);
        r
    } else {
        Vec::new()
    }
}

/// The label of a database level: the database's name, the configured
/// database for a Postgres tree without databases, and otherwise empty (no
/// database row at all).
pub open spec fn database_name_spec(conn: ActiveConnection, db: u32) -> Seq<char> {
    if db != NONE {
        match conn.schema {
            Some(s) => if (db as int) < (*s).databases@.len() {
                (*s).databases@[db as int].name@
            } else {
                Seq::empty()
            },
            None => Seq::empty(),
        }
    } else if is_postgres(conn) {
        trim_spec(conn.config.database@)
    } else {
        Seq::empty()
    }
}

pub fn database_name(conn: &ActiveConnection, db: u32) -> (r: String)
    ensures
        r@ == database_name_spec(*conn, db),
{
    if db != NONE {
        return match &conn.schema {
            Some(s) => if (db as usize) < s.databases.len() {
                s.databases[db as usize].name.clone()
            } else {
                String::new()
            },
            None => String::new(),
        };
    }
    if driver_is_postgres(conn) {
        trim(conn.config.database.as_str())
    } else {
        String::new()
    }
}

// ─── Expansion keys ────────────────────────────────────────────────────────
//
// These are the keys `expanded_tables` has always used, so what was open stays
// open.

pub open spec fn database_key_spec(conn_id: Seq<char>, dbname: Seq<char>) -> Seq<char> {
    conn_id + "-database-"@ + dbname
}

pub open spec fn schema_key_spec(conn_id: Seq<char>, schema: Seq<char>) -> Seq<char> {
    conn_id + "-schema-"@ + schema
}

pub open spec fn tables_key_spec(conn_id: Seq<char>, schema: Option<Seq<char>>) -> Seq<char> {
    match schema {
        Some(sc) => conn_id + "-"@ + sc + "-tables"@,
        None => conn_id + "-tables"@,
    }
}

pub open spec fn leaf_word(leaf: Leaf) -> Seq<char> {
    match leaf {
        Leaf::Views => "views"@,
        Leaf::Indexes => "indexes"@,
    }
}

pub open spec fn leaf_key_spec(conn_id: Seq<char>, schema: Option<Seq<char>>, leaf: Leaf) -> Seq<char> {
    match schema {
        Some(sc) => conn_id + "-"@ + sc + "-"@ + leaf_word(leaf),
        None => conn_id + "-"@ + leaf_word(leaf),
    }
}

pub open spec fn table_key_spec(conn_id: Seq<char>, schema: Option<Seq<char>>, table: Seq<char>) -> Seq<
    char,
> {
    match schema {
        Some(sc) => conn_id + "-"@ + sc + "-t-"@ + table,
        None => conn_id + "-t-"@ + table,
    }
}

pub open spec fn opt_view(s: Option<&str>) -> Option<Seq<char>> {
    match s {
        Some(x) => Some(x@),
        None => None,
    }
}

pub fn database_key(conn_id: &str, dbname: &str) -> (r: String)
    ensures
        r@ == database_key_spec(conn_id@, dbname@),
{
    let mut r = String::new();
    r.append(conn_id);
    r.append("-database-");
    r.append(dbname);
    proof {
        assert(r@ =~= database_key_spec(conn_id@, dbname@));
    }
    r
}

pub fn schema_key(conn_id: &str, schema: &str) -> (r: String)
    ensures
        r@ == schema_key_spec(conn_id@, schema@),
{
    let mut r = String::new();
    r.append(conn_id);
    r.append("-schema-");
    r.append(schema);
    proof {
        assert(r@ =~= schema_key_spec(conn_id@, schema@));
    }
    r
}

pub fn tables_key(conn_id: &str, schema: Option<&str>) -> (r: String)
    ensures
        r@ == tables_key_spec(conn_id@, opt_view(schema)),
{
    let mut r = String::new();
    r.append(conn_id);
    match schema {
        Some(sc) => {
            r.append("-");
            r.append(sc);
            r.append("-tables");
        },
        None => {
            r.append("-tables");
        },
    }
    proof {
        assert(r@ =~= tables_key_spec(conn_id@, opt_view(schema)));
    }
    r
}

pub fn leaf_key(conn_id: &str, schema: Option<&str>, leaf: Leaf) -> (r: String)
    ensures
        r@ == leaf_key_spec(conn_id@, opt_view(schema), leaf),
{
    let what = match leaf {
        Leaf::Views => "views",
        Leaf::Indexes => "indexes",
    };
    let mut r = String::new();
    r.append(conn_id);
    match schema {
        Some(sc) => {
            r.append("-");
            r.append(sc);
            r.append("-");
            r.append(what);
        },
        None => {
            r.append("-");
            r.append(what);
        },
    }
    proof {
        assert(r@ =~= leaf_key_spec(conn_id@, opt_view(schema), leaf));
    }
    r
}

pub fn table_key(conn_id: &str, schema: Option<&str>, table: &str) -> (r: String)
    ensures
        r@ == table_key_spec(conn_id@, opt_view(schema), table@),
{
    let mut r = String::new();
    r.append(conn_id);
    match schema {
        Some(sc) => {
            r.append("-");
            r.append(sc);
            r.append("-t-");
            r.append(table);
        },
        None => {
            r.append("-t-");
            r.append(table);
        },
    }
    proof {
        assert(r@ =~= table_key_spec(conn_id@, opt_view(schema), table@));
    }
    r
}

// ─── Rows ──────────────────────────────────────────────────────────────────

/// One line of the tree. `conn` indexes the connections slice the rows were
/// built from and `group` the server groups; `db`, `schema`, `table` index the
/// connection's schema tree, with [`NONE`] where that level does not exist.
#[derive(Clone, Copy, Debug, PartialEq, Eq, Structural)]
pub enum RowKind {
    Group { group: usize, count: usize, open: bool },
    Conn { conn: usize, group: Option<usize>, open: bool },
    Info { conn: usize, info: Info },
    Database { conn: usize, db: u32, open: bool },
    Schema { conn: usize, db: u32, schema: u32, open: bool },
    Tables { conn: usize, db: u32, schema: u32, count: usize, open: bool },
    Table { conn: usize, db: u32, schema: u32, table: u32, open: bool },
    Column { conn: usize, db: u32, schema: u32, table: u32, column: u32 },
    LeafSection { conn: usize, db: u32, schema: u32, leaf: Leaf, count: usize, open: bool },
    LeafItem { conn: usize, db: u32, schema: u32, leaf: Leaf, item: u32 },
    /// The 2px of padding below an open connection's children.
    Gap,
}

/// The kind of line a row is, which decides its height at a font scale:
/// group and connection headers, database and schema labels, section
/// headers with tables and leaf items, columns, notes such as "Loading
/// schema…", and the 2px tail under an open connection.
#[derive(Clone, Copy, Debug, PartialEq, Eq, Structural)]
pub enum Line {
    Header,
    Section,
    Item,
    Column,
    Info,
    Tail,
}

/// A row with its place: indent from the left of the tree and margin above,
/// in pixels, and its kind of line.
#[derive(Clone, Copy, Debug, PartialEq, Eq, Structural)]
pub struct RowShape {
    pub kind: RowKind,
    pub indent: u32,
    pub gap: u32,
    pub line: Line,
}

/// Everything that decides which rows exist. The expansion sets are lists
/// of keys; only membership matters.
pub struct TreeState<'a> {
    pub connections: &'a [ActiveConnection],
    pub groups: &'a [ServerGroup],
    pub expanded: &'a [String],
    pub expanded_tables: &'a [String],
    pub expanded_groups: &'a [String],
    /// The filter results to show, or `None` when not filtering.
    pub matches: Option<&'a Matches>,
}

/// Each nesting level indents by 16px.
pub const STEP: u32 = 16;

/// Sections are separated by a 2px top margin.
pub const SECTION_GAP: u32 = 2;

pub open spec fn row(kind: RowKind, indent: int, gap: int, line: Line) -> RowShape {
    RowShape { kind, indent: indent as u32, gap: gap as u32, line }
}

/// `key` is one of `set`.
pub open spec fn listed(set: Seq<String>, key: Seq<char>) -> bool {
    exists|i: int| 0 <= i < set.len() && (#[trigger] set[i])@ == key
}

pub open spec fn filtering(st: TreeState) -> bool {
    st.matches is Some
}

pub open spec fn conn_id(st: TreeState, ci: int) -> Seq<char> {
    st.connections@[ci].config.id@
}

/// Table `i` of a schema survives the filter.
pub open spec fn keeps(st: TreeState, ci: int, db: u32, sc: u32, i: u32) -> bool {
    match st.matches {
        None => true,
        Some(m) => table_listed(*m, conn_id(st, ci), (db, sc, i)),
    }
}

/// Of the first `n` table positions, those that survive the filter.
pub open spec fn kept_upto(st: TreeState, ci: int, db: u32, sc: u32, n: int) -> Seq<u32>
    decreases n,
{
    if n <= 0 {
        Seq::empty()
    } else if keeps(st, ci, db, sc, (n - 1) as u32) {
        kept_upto(st, ci, db, sc, n - 1).push((n - 1) as u32)
    } else {
        kept_upto(st, ci, db, sc, n - 1)
    }
}

/// Positions of the tables of one schema that survive the filter.
pub open spec fn matching(st: TreeState, ci: int, tree: SchemaTree, db: u32, sc: u32) -> Seq<u32> {
    kept_upto(st, ci, db, sc, (tables_spec(tree, db, sc).len() as u32) as int)
}

pub open spec fn name_of(s: Option<Schema>) -> Option<Seq<char>> {
    match s {
        Some(x) => Some(x.name@),
        None => None,
    }
}

/// A table's row, then its columns when it is open.
pub open spec fn table_rows(
    st: TreeState,
    ci: int,
    tree: SchemaTree,
    db: u32,
    sc: u32,
    ti: u32,
    indent: int,
) -> Seq<RowShape> {
    let t = tables_spec(tree, db, sc)[ti as int];
    let sc_name = name_of(schema_spec(tree, db, sc));
    let topen = listed(st.expanded_tables@, table_key_spec(conn_id(st, ci), sc_name, t.name@));
    seq![row(RowKind::Table { conn: ci as usize, db, schema: sc, table: ti, open: topen }, indent + 16, 0, Line::Item)]
        + if topen {
        Seq::new(
            (t.columns@.len() as u32) as nat,
            |c: int|
                row(
                    RowKind::Column { conn: ci as usize, db, schema: sc, table: ti, column: c as u32 },
                    indent + 40,
                    0,
                    Line::Column,
                ),
        )
    } else {
        Seq::empty()
    }
}

/// The rows of the tables at the first `n` of `visible`.
pub open spec fn tables_rows(
    st: TreeState,
    ci: int,
    tree: SchemaTree,
    db: u32,
    sc: u32,
    visible: Seq<u32>,
    n: int,
    indent: int,
) -> Seq<RowShape>
    decreases n,
{
    if n <= 0 {
        Seq::empty()
    } else {
        tables_rows(st, ci, tree, db, sc, visible, n - 1, indent) + table_rows(
            st,
            ci,
            tree,
            db,
            sc,
            visible[n - 1],
            indent,
        )
    }
}

/// The "Tables" header and, when it is open, the surviving tables. A flat
/// tree drops the whole section when nothing in it matches.
pub open spec fn tables_section(st: TreeState, ci: int, tree: SchemaTree, db: u32, sc: u32, indent: int) -> Seq<
    RowShape,
> {
    let visible = matching(st, ci, tree, db, sc);
    if filtering(st) && visible.len() == 0 {
        Seq::empty()
    } else {
        let sc_name = name_of(schema_spec(tree, db, sc));
        let open = filtering(st) || listed(st.expanded_tables@, tables_key_spec(conn_id(st, ci), sc_name));
        seq![row(RowKind::Tables { conn: ci as usize, db, schema: sc, count: visible.len() as usize, open }, indent, 2, Line::Item)]
            + if open {
            tables_rows(st, ci, tree, db, sc, visible, visible.len() as int, indent)
        } else {
            Seq::empty()
        }
    }
}

/// The "Views" or "Indexes" header and, when it is open, its items; nothing
/// when the list is empty.
pub open spec fn leaf_section(
    st: TreeState,
    ci: int,
    tree: SchemaTree,
    db: u32,
    sc: u32,
    leaf: Leaf,
    indent: int,
) -> Seq<RowShape> {
    let count = leaf_len(tree, db, sc, leaf);
    if count == 0 {
        Seq::empty()
    } else {
        let sc_name = name_of(schema_spec(tree, db, sc));
        let open = listed(st.expanded_tables@, leaf_key_spec(conn_id(st, ci), sc_name, leaf));
        seq![row(RowKind::LeafSection { conn: ci as usize, db, schema: sc, leaf, count: count as usize, open }, indent, 2, Line::Item)]
            + if open {
            Seq::new(
                (count as u32) as nat,
                |k: int|
                    row(
                        RowKind::LeafItem { conn: ci as usize, db, schema: sc, leaf, item: k as u32 },
                        indent + 16,
                        0,
                        Line::Item,
                    ),
            )
        } else {
            Seq::empty()
        }
    }
}

/// The tables section, then (when not filtering) views and indexes.
pub open spec fn sections(st: TreeState, ci: int, tree: SchemaTree, db: u32, sc: u32, indent: int) -> Seq<
    RowShape,
> {
    tables_section(st, ci, tree, db, sc, indent) + if !filtering(st) {
        leaf_section(st, ci, tree, db, sc, Leaf::Views, indent) + leaf_section(
            st,
            ci,
            tree,
            db,
            sc,
            Leaf::Indexes,
            indent,
        )
    } else {
        Seq::empty()
    }
}

/// A schema's row and, when it is open, its sections; a schema with no
/// surviving table is left out while filtering.
pub open spec fn schema_rows(st: TreeState, ci: int, tree: SchemaTree, db: u32, k: int, inner: int) -> Seq<
    RowShape,
> {
    let schema = schemas_spec(tree, db)[k];
    let si = k as u32;
    let count = matching(st, ci, tree, db, si).len();
    if filtering(st) && count == 0 {
        Seq::empty()
    } else {
        let sopen = filtering(st) || listed(st.expanded_tables@, schema_key_spec(conn_id(st, ci), schema.name@));
        seq![row(RowKind::Schema { conn: ci as usize, db, schema: si, open: sopen }, inner + 16, 2, Line::Section)]
            + if sopen {
            sections(st, ci, tree, db, si, inner + 48)
        } else {
            Seq::empty()
        }
    }
}

/// The rows of the first `n` schemas under database level `db`.
pub open spec fn schemas_rows(st: TreeState, ci: int, tree: SchemaTree, db: u32, n: int, inner: int) -> Seq<
    RowShape,
>
    decreases n,
{
    if n <= 0 {
        Seq::empty()
    } else {
        schemas_rows(st, ci, tree, db, n - 1, inner) + schema_rows(st, ci, tree, db, n - 1, inner)
    }
}

/// A database level: its row when it has a name, and its schemas when it is
/// open (an unnamed level is always open).
pub open spec fn database_rows(st: TreeState, ci: int, tree: SchemaTree, db: u32, base: int) -> Seq<RowShape> {
    let dbname = database_name_spec(st.connections@[ci], db);
    let nested = dbname.len() > 0;
    let db_open = !nested || filtering(st) || listed(
        st.expanded_tables@,
        database_key_spec(conn_id(st, ci), dbname),
    );
    let inner = if nested {
        base + 16
    } else {
        base
    };
    (if nested {
        seq![row(RowKind::Database { conn: ci as usize, db, open: db_open }, base + 16, 2, Line::Section)]
    } else {
        Seq::empty()
    }) + if db_open {
        schemas_rows(st, ci, tree, db, schemas_spec(tree, db).len() as int, inner)
    } else {
        Seq::empty()
    }
}

/// The rows of the first `n` database levels.
pub open spec fn databases_rows(st: TreeState, ci: int, tree: SchemaTree, dbs: Seq<u32>, n: int, base: int) -> Seq<
    RowShape,
>
    decreases n,
{
    if n <= 0 {
        Seq::empty()
    } else {
        databases_rows(st, ci, tree, dbs, n - 1, base) + database_rows(st, ci, tree, dbs[n - 1], base)
    }
}

/// Under an open connection with a schema: its database levels, or for a
/// flat tree the sections straight under the connection.
pub open spec fn children_rows(st: TreeState, ci: int, tree: SchemaTree, base: int) -> Seq<RowShape> {
    let dbs = schema_groups_spec(st.connections@[ci]);
    if dbs.len() == 0 {
        sections(st, ci, tree, NONE, NONE, base + 16)
    } else {
        databases_rows(st, ci, tree, dbs, dbs.len() as int, base)
    }
}

/// A connection's row and, when it is open, what is under it and the tail.
pub open spec fn conn_rows(st: TreeState, ci: int, group: Option<usize>) -> Seq<RowShape> {
    let conn = st.connections@[ci];
    let open = filtering(st) || listed(st.expanded@, conn.config.id@);
    seq![row(RowKind::Conn { conn: ci as usize, group, open }, 0, 0, Line::Header)] + if open {
        (if conn.schema_loading {
            seq![row(RowKind::Info { conn: ci as usize, info: Info::Loading }, 16, 0, Line::Info)]
        } else if conn.schema_error is Some {
            seq![row(RowKind::Info { conn: ci as usize, info: Info::Error }, 16, 0, Line::Info)]
        } else {
            match conn.schema {
                Some(tree) => children_rows(st, ci, *tree, 16),
                None => seq![row(RowKind::Info { conn: ci as usize, info: Info::NotLoaded }, 16, 0, Line::Info)],
            }
        }) + seq![row(RowKind::Gap, 0, 0, Line::Tail)]
    } else {
        Seq::empty()
    }
}

/// The connection survives the filter.
pub open spec fn conn_kept(st: TreeState, ci: int) -> bool {
    match st.matches {
        None => true,
        Some(m) => conn_listed(*m, conn_id(st, ci)),
    }
}

/// Of the first `n` positions in `ps`, those whose connection survives.
pub open spec fn kept_conns(st: TreeState, ps: Seq<int>, n: int) -> Seq<int>
    decreases n,
{
    if n <= 0 {
        Seq::empty()
    } else if conn_kept(st, ps[n - 1]) {
        kept_conns(st, ps, n - 1).push(ps[n - 1])
    } else {
        kept_conns(st, ps, n - 1)
    }
}

/// The rows of the connections at the first `n` of `ps`.
pub open spec fn conns_rows(st: TreeState, ps: Seq<int>, n: int, group: Option<usize>) -> Seq<RowShape>
    decreases n,
{
    if n <= 0 {
        Seq::empty()
    } else {
        conns_rows(st, ps, n - 1, group) + conn_rows(st, ps[n - 1], group)
    }
}

/// A group's header (left out while filtering when nothing in it survives)
/// and, when it is open, its surviving connections.
pub open spec fn group_rows(st: TreeState, g: int) -> Seq<RowShape> {
    let ps = member_positions(
        st.connections@,
        st.groups@,
        g,
        st.groups@[g].connection_ids@.len() as int,
    );
    let kept = kept_conns(st, ps, ps.len() as int);
    let open = filtering(st) || listed(st.expanded_groups@, st.groups@[g].id@);
    (if !filtering(st) || kept.len() > 0 {
        seq![row(RowKind::Group { group: g as usize, count: kept.len() as usize, open }, 0, 0, Line::Header)]
    } else {
        Seq::empty()
    }) + if open {
        conns_rows(st, kept, kept.len() as int, Some(g as usize))
    } else {
        Seq::empty()
    }
}

/// The rows of the first `n` groups.
pub open spec fn groups_rows(st: TreeState, n: int) -> Seq<RowShape>
    decreases n,
{
    if n <= 0 {
        Seq::empty()
    } else {
        groups_rows(st, n - 1) + group_rows(st, n - 1)
    }
}

/// The whole tree: the groups in order, then the connections no group
/// lists, each as the nested layout showed it.
pub open spec fn tree_rows(st: TreeState) -> Seq<RowShape> {
    let rest = ungrouped_positions(st.connections@, st.groups@, st.connections@.len() as int);
    let kept = kept_conns(st, rest, rest.len() as int);
    groups_rows(st, st.groups@.len() as int) + conns_rows(st, kept, kept.len() as int, None)
}

// ─── Building ──────────────────────────────────────────────────────────────

fn is_listed(set: &[String], key: &str) -> (r: bool)
    ensures
        r == listed(set@, key@),
{
    let mut i: usize = 0;
    while i < set.len()
        invariant
            i <= set@.len(),
            forall|k: int| 0 <= k < i ==> (#[trigger] set@[k])@ != key@,
        decreases set@.len() - i,
    {
        if str_eq(set[i].as_str(), key) {
            return true;
        }
        i += 1;
    }
    false
}

fn matching_tables(st: &TreeState, ci: usize, tree: &SchemaTree, db: u32, sc: u32) -> (r: Vec<u32>)
    requires
        ci < st.connections@.len(),
    ensures
        r@ == matching(*st, ci as int, *tree, db, sc),
        forall|k: int| 0 <= k < r@.len() ==> (#[trigger] r@[k] as int) < tables_spec(*tree, db, sc).len(),
{
    let tables = tables_of(tree, db, sc);
    let len: usize = tables.len();
    #[verifier::truncate]
    let n: u32 = len as u32;
    assert(n <= len) by (bit_vector)
        requires
            n == len as u32,
    ;
    let id = st.connections[ci].config.id.as_str();
    let mut r: Vec<u32> = Vec::new();
    let mut i: u32 = 0;
    while i < n
        invariant
            i <= n,
            n as int <= tables@.len(),
            r@ == kept_upto(*st, ci as int, db, sc, i as int),
            forall|k: int| 0 <= k < r@.len() ==> (#[trigger] r@[k]) < i,
            id@ == conn_id(*st, ci as int),
        decreases n - i,
    {
        let keep = match st.matches {
            None => true,
            Some(m) => m.table_matches(id, (db, sc, i)),
        };
        if keep {
            r.push(i);
        }
        i += 1;
    }
    r
}

fn schema_name_of<'a>(tree: &'a SchemaTree, db: u32, sc: u32) -> (r: Option<&'a str>)
    ensures
        opt_view(r) == name_of(schema_spec(*tree, db, sc)),
{
    match schema_of(tree, db, sc) {
        Some(s) => Some(s.name.as_str()),
        None => None,
    }
}

fn push_table(
    rows: &mut Vec<RowShape>,
    st: &TreeState,
    ci: usize,
    tree: &SchemaTree,
    db: u32,
    sc: u32,
    ti: u32,
    indent: u32,
)
    requires
        ci < st.connections@.len(),
        (ti as int) < tables_spec(*tree, db, sc).len(),
        indent <= 1000,
    ensures
        final(rows)@ == old(rows)@ + table_rows(*st, ci as int, *tree, db, sc, ti, indent as int),
{
    let tables = tables_of(tree, db, sc);
    let t = &tables[ti as usize];
    let sc_name = schema_name_of(tree, db, sc);
    let id = st.connections[ci].config.id.as_str();
    let key = table_key(id, sc_name, t.name.as_str());
    let topen = is_listed(st.expanded_tables, key.as_str());
    let ghost start = rows@;
    let head = RowShape {
        kind: RowKind::Table { conn: ci, db, schema: sc, table: ti, open: topen },
        indent: indent + 16,
        gap: 0,
        line: Line::Item,
    };
    rows.push(head);
    if topen {
        let len: usize = t.columns.len();
        #[verifier::truncate]
        let n: u32 = len as u32;
        let mut c: u32 = 0;
        while c < n
            invariant
                c <= n,
                indent <= 1000,
                rows@ == start + seq![head] + Seq::new(
                    c as nat,
                    |k: int|
                        row(
                            RowKind::Column { conn: ci, db, schema: sc, table: ti, column: k as u32 },
                            indent + 40,
                            0,
                            Line::Column,
                        ),
                ),
            decreases n - c,
        {
            rows.push(
                RowShape {
                    kind: RowKind::Column { conn: ci, db, schema: sc, table: ti, column: c },
                    indent: indent + 40,
                    gap: 0,
                    line: Line::Column,
                },
            );
            proof {
                assert(rows@ =~= start + seq![head] + Seq::new(
                    (c + 1) as nat,
                    |k: int|
                        row(
                            RowKind::Column { conn: ci, db, schema: sc, table: ti, column: k as u32 },
                            indent + 40,
                            0,
                            Line::Column,
                        ),
                ));
            }
            c += 1;
        }
        proof {
            assert(rows@ =~= start + table_rows(*st, ci as int, *tree, db, sc, ti, indent as int));
        }
    } else {
        proof {
            assert(rows@ =~= start + table_rows(*st, ci as int, *tree, db, sc, ti, indent as int));
        }
    }
}

fn push_tables_section(
    rows: &mut Vec<RowShape>,
    st: &TreeState,
    ci: usize,
    tree: &SchemaTree,
    db: u32,
    sc: u32,
    indent: u32,
)
    requires
        ci < st.connections@.len(),
        indent <= 1000,
    ensures
        final(rows)@ == old(rows)@ + tables_section(*st, ci as int, *tree, db, sc, indent as int),
{
    let visible = matching_tables(st, ci, tree, db, sc);
    let filtering = st.matches.is_some();
    if filtering && visible.len() == 0 {
        proof {
            assert(rows@ =~= rows@ + tables_section(*st, ci as int, *tree, db, sc, indent as int));
        }
        return;
    }
    let sc_name = schema_name_of(tree, db, sc);
    let id = st.connections[ci].config.id.as_str();
    let open = filtering || {
        let key = tables_key(id, sc_name);
        is_listed(st.expanded_tables, key.as_str())
    };
    let ghost start = rows@;
    let head = RowShape {
        kind: RowKind::Tables { conn: ci, db, schema: sc, count: visible.len(), open },
        indent,
        gap: SECTION_GAP,
        line: Line::Item,
    };
    rows.push(head);
    if open {
        let mut k: usize = 0;
        while k < visible.len()
            invariant
                ci < st.connections@.len(),
                indent <= 1000,
                k <= visible@.len(),
                visible@ == matching(*st, ci as int, *tree, db, sc),
                forall|x: int| 0 <= x < visible@.len() ==> (#[trigger] visible@[x] as int) < tables_spec(*tree, db, sc).len(),
                rows@ == start + seq![head] + tables_rows(*st, ci as int, *tree, db, sc, visible@, k as int, indent as int),
            decreases visible@.len() - k,
        {
            push_table(rows, st, ci, tree, db, sc, visible[k], indent);
            proof {
                assert(rows@ =~= start + seq![head] + tables_rows(*st, ci as int, *tree, db, sc, visible@, k + 1, indent as int));
            }
            k += 1;
        }
    }
    proof {
        assert(rows@ =~= start + tables_section(*st, ci as int, *tree, db, sc, indent as int));
    }
}

fn push_leaf_section(
    rows: &mut Vec<RowShape>,
    st: &TreeState,
    ci: usize,
    tree: &SchemaTree,
    db: u32,
    sc: u32,
    leaf: Leaf,
    indent: u32,
)
    requires
        ci < st.connections@.len(),
        indent <= 1000,
    ensures
        final(rows)@ == old(rows)@ + leaf_section(*st, ci as int, *tree, db, sc, leaf, indent as int),
{
    let count = leaf_count(tree, db, sc, leaf);
    if count == 0 {
        proof {
            assert(rows@ =~= rows@ + leaf_section(*st, ci as int, *tree, db, sc, leaf, indent as int));
        }
        return;
    }
    let sc_name = schema_name_of(tree, db, sc);
    let id = st.connections[ci].config.id.as_str();
    let key = leaf_key(id, sc_name, leaf);
    let open = is_listed(st.expanded_tables, key.as_str());
    let ghost start = rows@;
    let head = RowShape {
        kind: RowKind::LeafSection { conn: ci, db, schema: sc, leaf, count, open },
        indent,
        gap: SECTION_GAP,
        line: Line::Item,
    };
    rows.push(head);
    if open {
        #[verifier::truncate]
        let n: u32 = count as u32;
        let mut item: u32 = 0;
        while item < n
            invariant
                item <= n,
                indent <= 1000,
                rows@ == start + seq![head] + Seq::new(
                    item as nat,
                    |k: int|
                        row(
                            RowKind::LeafItem { conn: ci, db, schema: sc, leaf, item: k as u32 },
                            indent + 16,
                            0,
                            Line::Item,
                        ),
                ),
            decreases n - item,
        {
            rows.push(
                RowShape {
                    kind: RowKind::LeafItem { conn: ci, db, schema: sc, leaf, item },
                    indent: indent + 16,
                    gap: 0,
                    line: Line::Item,
                },
            );
            proof {
                assert(rows@ =~= start + seq![head] + Seq::new(
                    (item + 1) as nat,
                    |k: int|
                        row(
                            RowKind::LeafItem { conn: ci, db, schema: sc, leaf, item: k as u32 },
                            indent + 16,
                            0,
                            Line::Item,
                        ),
                ));
            }
            item += 1;
        }
    }
    proof {
        assert(rows@ =~= start + leaf_section(*st, ci as int, *tree, db, sc, leaf, indent as int));
    }
}

fn push_sections(
    rows: &mut Vec<RowShape>,
    st: &TreeState,
    ci: usize,
    tree: &SchemaTree,
    db: u32,
    sc: u32,
    indent: u32,
)
    requires
        ci < st.connections@.len(),
        indent <= 1000,
    ensures
        final(rows)@ == old(rows)@ + sections(*st, ci as int, *tree, db, sc, indent as int),
{
    let ghost start = rows@;
    push_tables_section(rows, st, ci, tree, db, sc, indent);
    if st.matches.is_none() {
        push_leaf_section(rows, st, ci, tree, db, sc, Leaf::Views, indent);
        push_leaf_section(rows, st, ci, tree, db, sc, Leaf::Indexes, indent);
    }
    proof {
        assert(rows@ =~= start + sections(*st, ci as int, *tree, db, sc, indent as int));
    }
}

fn push_schema(
    rows: &mut Vec<RowShape>,
    st: &TreeState,
    ci: usize,
    tree: &SchemaTree,
    db: u32,
    k: usize,
    inner: u32,
)
    requires
        ci < st.connections@.len(),
        k < schemas_spec(*tree, db).len(),
        inner <= 500,
    ensures
        final(rows)@ == old(rows)@ + schema_rows(*st, ci as int, *tree, db, k as int, inner as int),
{
    let schema = &schemas_of(tree, db)[k];
    #[verifier::truncate]
    let si: u32 = k as u32;
    let count = matching_tables(st, ci, tree, db, si).len();
    let filtering = st.matches.is_some();
    if filtering && count == 0 {
        proof {
            assert(rows@ =~= rows@ + schema_rows(*st, ci as int, *tree, db, k as int, inner as int));
        }
        return;
    }
    let id = st.connections[ci].config.id.as_str();
    let sopen = filtering || {
        let key = schema_key(id, schema.name.as_str());
        is_listed(st.expanded_tables, key.as_str())
    };
    let ghost start = rows@;
    rows.push(
        RowShape {
            kind: RowKind::Schema { conn: ci, db, schema: si, open: sopen },
            indent: inner + STEP,
            gap: SECTION_GAP,
            line: Line::Section,
        },
    );
    if sopen {
        push_sections(rows, st, ci, tree, db, si, inner + STEP + 2 * STEP);
    }
    proof {
        assert(rows@ =~= start + schema_rows(*st, ci as int, *tree, db, k as int, inner as int));
    }
}

fn push_database(rows: &mut Vec<RowShape>, st: &TreeState, ci: usize, tree: &SchemaTree, db: u32, base: u32)
    requires
        ci < st.connections@.len(),
        base <= 100,
    ensures
        final(rows)@ == old(rows)@ + database_rows(*st, ci as int, *tree, db, base as int),
{
    let conn = &st.connections[ci];
    let dbname = database_name(conn, db);
    let nested = !dbname.as_str().is_empty();
    let filtering = st.matches.is_some();
    let db_open = !nested || filtering || {
        let key = database_key(conn.config.id.as_str(), dbname.as_str());
        is_listed(st.expanded_tables, key.as_str())
    };
    let ghost start = rows@;
    if nested {
        rows.push(
            RowShape {
                kind: RowKind::Database { conn: ci, db, open: db_open },
                indent: base + STEP,
                gap: SECTION_GAP,
                line: Line::Section,
            },
        );
    }
    let ghost head = rows@;
    if db_open {
        let inner = if nested {
            base + STEP
        } else {
            base
        };
        let n = schemas_of(tree, db).len();
        let mut k: usize = 0;
        while k < n
            invariant
                ci < st.connections@.len(),
                inner <= 500,
                k <= n,
                n == schemas_spec(*tree, db).len(),
                rows@ == head + schemas_rows(*st, ci as int, *tree, db, k as int, inner as int),
            decreases n - k,
        {
            push_schema(rows, st, ci, tree, db, k, inner);
            proof {
                assert(rows@ =~= head + schemas_rows(*st, ci as int, *tree, db, k + 1, inner as int));
            }
            k += 1;
        }
    }
    proof {
        assert(rows@ =~= start + database_rows(*st, ci as int, *tree, db, base as int));
    }
}

fn push_children(rows: &mut Vec<RowShape>, st: &TreeState, ci: usize, tree: &SchemaTree, base: u32)
    requires
        ci < st.connections@.len(),
        base <= 100,
    ensures
        final(rows)@ == old(rows)@ + children_rows(*st, ci as int, *tree, base as int),
{
    let ghost start = rows@;
    let dbs = schema_groups(&st.connections[ci]);
    if dbs.len() == 0 {
        push_sections(rows, st, ci, tree, NONE, NONE, base + STEP);
    } else {
        let mut k: usize = 0;
        while k < dbs.len()
            invariant
                ci < st.connections@.len(),
                base <= 100,
                k <= dbs@.len(),
                dbs@ == schema_groups_spec(st.connections@[ci as int]),
                rows@ == start + databases_rows(*st, ci as int, *tree, dbs@, k as int, base as int),
            decreases dbs@.len() - k,
        {
            push_database(rows, st, ci, tree, dbs[k], base);
            proof {
                assert(rows@ =~= start + databases_rows(*st, ci as int, *tree, dbs@, k + 1, base as int));
            }
            k += 1;
        }
    }
}

fn push_conn(rows: &mut Vec<RowShape>, st: &TreeState, ci: usize, group: Option<usize>)
    requires
        ci < st.connections@.len(),
    ensures
        final(rows)@ == old(rows)@ + conn_rows(*st, ci as int, group),
{
    let conn = &st.connections[ci];
    let open = st.matches.is_some() || is_listed(st.expanded, conn.config.id.as_str());
    let ghost start = rows@;
    rows.push(RowShape { kind: RowKind::Conn { conn: ci, group, open }, indent: 0, gap: 0, line: Line::Header });
    if !open {
        proof {
            assert(rows@ =~= start + conn_rows(*st, ci as int, group));
        }
        return;
    }
    if conn.schema_loading {
        rows.push(RowShape { kind: RowKind::Info { conn: ci, info: Info::Loading }, indent: STEP, gap: 0, line: Line::Info });
    } else if conn.schema_error.is_some() {
        rows.push(RowShape { kind: RowKind::Info { conn: ci, info: Info::Error }, indent: STEP, gap: 0, line: Line::Info });
    } else {
        match &conn.schema {
            Some(tree) => {
                let t: &SchemaTree = &**tree;
                push_children(rows, st, ci, t, STEP);
            },
            None => {
                rows.push(RowShape { kind: RowKind::Info { conn: ci, info: Info::NotLoaded }, indent: STEP, gap: 0, line: Line::Info });
            },
        }
    }
    rows.push(RowShape { kind: RowKind::Gap, indent: 0, gap: 0, line: Line::Tail });
    proof {
        assert(rows@ =~= start + conn_rows(*st, ci as int, group));
    }
}

fn kept_connections(st: &TreeState, ps: &Vec<usize>) -> (r: Vec<usize>)
    requires
        forall|k: int| 0 <= k < ps@.len() ==> #[trigger] ps@[k] < st.connections@.len(),
    ensures
        usize_ints(r@) == kept_conns(*st, usize_ints(ps@), ps@.len() as int),
        forall|k: int| 0 <= k < r@.len() ==> #[trigger] r@[k] < st.connections@.len(),
{
    let mut r: Vec<usize> = Vec::new();
    let mut k: usize = 0;
    while k < ps.len()
        invariant
            k <= ps@.len(),
            forall|x: int| 0 <= x < ps@.len() ==> #[trigger] ps@[x] < st.connections@.len(),
            forall|x: int| 0 <= x < r@.len() ==> #[trigger] r@[x] < st.connections@.len(),
            usize_ints(r@) == kept_conns(*st, usize_ints(ps@), k as int),
        decreases ps@.len() - k,
    {
        let ci = ps[k];
        let keep = match st.matches {
            None => true,
            Some(m) => m.conn_matches(st.connections[ci].config.id.as_str()),
        };
        if keep {
            r.push(ci);
        }
        proof {
            assert(usize_ints(ps@)[k as int] == ci as int);
            assert(usize_ints(r@) =~= kept_conns(*st, usize_ints(ps@), k + 1));
        }
        k += 1;
    }
    r
}

fn push_conns(rows: &mut Vec<RowShape>, st: &TreeState, cs: &Vec<usize>, group: Option<usize>)
    requires
        forall|k: int| 0 <= k < cs@.len() ==> #[trigger] cs@[k] < st.connections@.len(),
    ensures
        final(rows)@ == old(rows)@ + conns_rows(*st, usize_ints(cs@), cs@.len() as int, group),
{
    let ghost start = rows@;
    let mut k: usize = 0;
    while k < cs.len()
        invariant
            k <= cs@.len(),
            forall|x: int| 0 <= x < cs@.len() ==> #[trigger] cs@[x] < st.connections@.len(),
            rows@ == start + conns_rows(*st, usize_ints(cs@), k as int, group),
        decreases cs@.len() - k,
    {
        push_conn(rows, st, cs[k], group);
        proof {
            assert(usize_ints(cs@)[k as int] == cs@[k as int] as int);
            assert(rows@ =~= start + conns_rows(*st, usize_ints(cs@), k + 1, group));
        }
        k += 1;
    }
}

/// Walks the tree into rows, in the order and with the indents and gaps the
/// nested layout had.
pub fn build(st: &TreeState) -> (r: Vec<RowShape>)
    ensures
        r@ == tree_rows(*st),
{
    let (positions, rest) = display_positions(st.connections, st.groups);
    let filtering = st.matches.is_some();
    let mut rows: Vec<RowShape> = Vec::new();
    let mut gi: usize = 0;
    while gi < st.groups.len()
        invariant
            gi <= st.groups@.len(),
            filtering == st.matches is Some,
            positions.len() == st.groups@.len(),
            forall|g: int|
                0 <= g < st.groups@.len() ==> usize_ints((#[trigger] positions@[g])@) == member_positions(
                    st.connections@,
                    st.groups@,
                    g,
                    st.groups@[g].connection_ids@.len() as int,
                ),
            forall|g: int, k: int|
                0 <= g < st.groups@.len() && 0 <= k < positions@[g]@.len() ==> #[trigger] positions@[g]@[k]
                    < st.connections@.len(),
            rows@ == groups_rows(*st, gi as int),
        decreases st.groups@.len() - gi,
    {
        let matching = kept_connections(st, &positions[gi]);
        let open = filtering || is_listed(st.expanded_groups, st.groups[gi].id.as_str());
        let ghost before = rows@;
        if !filtering || matching.len() > 0 {
            rows.push(
                RowShape {
                    kind: RowKind::Group { group: gi, count: matching.len(), open },
                    indent: 0,
                    gap: 0,
                    line: Line::Header,
                },
            );
        }
        if open {
            push_conns(&mut rows, st, &matching, Some(gi));
        }
        proof {
            assert(rows@ =~= groups_rows(*st, gi + 1));
        }
        gi += 1;
    }
    let kept = kept_connections(st, &rest);
    push_conns(&mut rows, st, &kept, None);
    rows
}

} // verus!
