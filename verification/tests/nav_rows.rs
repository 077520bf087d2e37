use multidb::model::{ActiveConnection, ServerGroup};
use multidb::models::{Column, ConnectionConfig, Database, Schema, SchemaTree, Table};
use multidb::nav_index::{search, Matches, SchemaIndex, NONE};
use multidb::nav_rows::{
    build, database_key, database_name, leaf_count, leaf_key, leaf_name, schema_groups, schema_key, table_key,
    tables_key, Info, Leaf, Line, RowKind, RowShape, TreeState,
};
use std::sync::Arc;

fn table(name: &str, cols: &[&str]) -> Table {
    Table {
        name: name.into(),
        table_type: "table".into(),
        size_bytes: None,
        columns: cols.iter().map(|c| Column { name: (*c).into(), ..Default::default() }).collect(),
    }
}

fn conn(id: &str, driver: &str, database: &str, schema: SchemaTree) -> ActiveConnection {
    let mut c = ActiveConnection::new(ConnectionConfig {
        id: id.into(),
        name: id.into(),
        driver: driver.into(),
        database: database.into(),
        ..Default::default()
    });
    c.schema = Some(Arc::new(schema));
    c
}

fn pg(tables: Vec<Table>) -> SchemaTree {
    SchemaTree {
        databases: vec![Database {
            name: "app".into(),
            schemas: vec![Schema { name: "public".into(), tables, views: vec![table("v", &[])], ..Default::default() }],
            ..Default::default()
        }],
        ..Default::default()
    }
}

fn sqlite(tables: Vec<Table>) -> SchemaTree {
    SchemaTree { tables, ..Default::default() }
}

struct Fixture {
    conns: Vec<ActiveConnection>,
    groups: Vec<ServerGroup>,
    expanded: Vec<String>,
    tables: Vec<String>,
    egroups: Vec<String>,
}

impl Fixture {
    fn new(conns: Vec<ActiveConnection>) -> Self {
        Fixture { conns, groups: Vec::new(), expanded: Vec::new(), tables: Vec::new(), egroups: Vec::new() }
    }
    fn rows(&self, matches: Option<&Matches>) -> Vec<RowShape> {
        build(&TreeState {
            connections: &self.conns,
            groups: &self.groups,
            expanded: &self.expanded,
            expanded_tables: &self.tables,
            expanded_groups: &self.egroups,
            matches,
        })
    }
}

fn kinds(rows: &[RowShape]) -> Vec<RowKind> {
    rows.iter().map(|r| r.kind).collect()
}

#[test]
fn a_collapsed_connection_is_one_row() {
    let f = Fixture::new(vec![conn("a", "sqlite", "", sqlite(vec![table("t", &["x"])]))]);
    assert_eq!(kinds(&f.rows(None)), vec![RowKind::Conn { conn: 0, group: None, open: false }]);
}

#[test]
fn the_hierarchy_opens_level_by_level_with_the_old_indents() {
    let mut f =
        Fixture::new(vec![conn("a", "postgres", "", pg(vec![table("orders", &["id", "total"]), table("users", &[])]))]);
    f.expanded.push("a".into());
    f.tables.push(database_key("a", "app"));
    f.tables.push(schema_key("a", "public"));
    f.tables.push(tables_key("a", Some("public")));
    f.tables.push(table_key("a", Some("public"), "orders"));
    let rows = f.rows(None);
    let got: Vec<(RowKind, f32, f32)> = rows.iter().map(|r| (r.kind, r.indent as f32, r.gap as f32)).collect();
    assert_eq!(
        got,
        vec![
            (RowKind::Conn { conn: 0, group: None, open: true }, 0.0, 0.0),
            (RowKind::Database { conn: 0, db: 0, open: true }, 32.0, 2.0),
            (RowKind::Schema { conn: 0, db: 0, schema: 0, open: true }, 48.0, 2.0),
            (RowKind::Tables { conn: 0, db: 0, schema: 0, count: 2, open: true }, 80.0, 2.0),
            (RowKind::Table { conn: 0, db: 0, schema: 0, table: 0, open: true }, 96.0, 0.0),
            (RowKind::Column { conn: 0, db: 0, schema: 0, table: 0, column: 0 }, 120.0, 0.0),
            (RowKind::Column { conn: 0, db: 0, schema: 0, table: 0, column: 1 }, 120.0, 0.0),
            (RowKind::Table { conn: 0, db: 0, schema: 0, table: 1, open: false }, 96.0, 0.0),
            (RowKind::LeafSection { conn: 0, db: 0, schema: 0, leaf: Leaf::Views, count: 1, open: false }, 80.0, 2.0),
            (RowKind::Gap, 0.0, 0.0),
        ]
    );
    let lines: Vec<Line> = rows.iter().map(|r| r.line).collect();
    assert_eq!(
        lines,
        vec![Line::Header, Line::Section, Line::Section, Line::Item, Line::Item, Line::Column, Line::Column, Line::Item, Line::Item, Line::Tail]
    );
}

#[test]
fn grouped_connections_only_show_when_their_group_is_open() {
    let mut f = Fixture::new(vec![conn("a", "sqlite", "", sqlite(vec![])), conn("b", "sqlite", "", sqlite(vec![]))]);
    f.groups = vec![ServerGroup { id: "g".into(), title: "G".into(), connection_ids: vec!["b".into()] }];
    assert_eq!(
        kinds(&f.rows(None)),
        vec![RowKind::Group { group: 0, count: 1, open: false }, RowKind::Conn { conn: 0, group: None, open: false }]
    );
    f.egroups.push("g".into());
    assert_eq!(
        kinds(&f.rows(None)),
        vec![
            RowKind::Group { group: 0, count: 1, open: true },
            RowKind::Conn { conn: 1, group: Some(0), open: false },
            RowKind::Conn { conn: 0, group: None, open: false },
        ]
    );
}

#[test]
fn filtering_opens_everything_and_keeps_only_matches() {
    let conns = vec![
        conn("a", "postgres", "", pg(vec![table("orders", &["id"]), table("users", &["email"])])),
        conn("b", "sqlite", "", sqlite(vec![table("logs", &["msg"])])),
    ];
    let f = Fixture::new(conns);
    let indexes: Vec<Arc<SchemaIndex>> =
        f.conns.iter().map(|c| Arc::new(SchemaIndex::build(&c.config.id, 1, c.schema.as_ref().unwrap()))).collect();
    let m = search(&indexes, "email");
    assert_eq!(
        kinds(&f.rows(Some(&m))),
        vec![
            RowKind::Conn { conn: 0, group: None, open: true },
            RowKind::Database { conn: 0, db: 0, open: true },
            RowKind::Schema { conn: 0, db: 0, schema: 0, open: true },
            RowKind::Tables { conn: 0, db: 0, schema: 0, count: 1, open: true },
            RowKind::Table { conn: 0, db: 0, schema: 0, table: 1, open: false },
            RowKind::Gap,
        ]
    );
}

#[test]
fn connections_without_a_schema_show_why() {
    let mut c = ActiveConnection::new(ConnectionConfig { id: "a".into(), ..Default::default() });
    c.schema_loading = true;
    let mut f = Fixture::new(vec![c]);
    f.expanded.push("a".into());
    assert_eq!(
        kinds(&f.rows(None)),
        vec![RowKind::Conn { conn: 0, group: None, open: true }, RowKind::Info { conn: 0, info: Info::Loading }, RowKind::Gap]
    );
    f.conns[0].schema_loading = false;
    f.conns[0].schema_error = Some("boom".into());
    assert_eq!(kinds(&f.rows(None))[1], RowKind::Info { conn: 0, info: Info::Error });
    f.conns[0].schema_error = None;
    assert_eq!(kinds(&f.rows(None))[1], RowKind::Info { conn: 0, info: Info::NotLoaded });
}

#[test]
fn a_flat_tree_shows_its_sections_under_the_connection() {
    let mut t = sqlite(vec![table("t", &[])]);
    t.indexes = vec!["ix".into()];
    let mut f = Fixture::new(vec![conn("a", "sqlite", "", t)]);
    f.expanded.push("a".into());
    f.tables.push(leaf_key("a", None, Leaf::Indexes));
    let rows = f.rows(None);
    assert_eq!(
        kinds(&rows),
        vec![
            RowKind::Conn { conn: 0, group: None, open: true },
            RowKind::Tables { conn: 0, db: NONE, schema: NONE, count: 1, open: false },
            RowKind::LeafSection { conn: 0, db: NONE, schema: NONE, leaf: Leaf::Indexes, count: 1, open: true },
            RowKind::LeafItem { conn: 0, db: NONE, schema: NONE, leaf: Leaf::Indexes, item: 0 },
            RowKind::Gap,
        ]
    );
    assert_eq!(rows[1].indent, 32);
    assert_eq!(rows[3].indent, 48);
}

#[test]
fn expansion_keys_keep_their_old_shapes() {
    assert_eq!(database_key("c", "app"), "c-database-app");
    assert_eq!(schema_key("c", "public"), "c-schema-public");
    assert_eq!(tables_key("c", Some("s")), "c-s-tables");
    assert_eq!(tables_key("c", None), "c-tables");
    assert_eq!(leaf_key("c", Some("s"), Leaf::Views), "c-s-views");
    assert_eq!(leaf_key("c", None, Leaf::Indexes), "c-indexes");
    assert_eq!(table_key("c", Some("s"), "t"), "c-s-t-t");
    assert_eq!(table_key("c", None, "t"), "c-t-t");
}

#[test]
fn database_levels_depend_on_the_driver() {
    let p = conn("a", "postgres", "  shop ", SchemaTree { schemas: vec![Schema::default()], ..Default::default() });
    assert_eq!(schema_groups(&p), vec![NONE]);
    assert_eq!(database_name(&p, NONE), "shop");
    let blank = conn("a", "postgres", "   ", SchemaTree { schemas: vec![Schema::default()], ..Default::default() });
    assert!(schema_groups(&blank).is_empty());
    let dbs = conn("a", "postgres", "", pg(vec![]));
    assert_eq!(schema_groups(&dbs), vec![0]);
    assert_eq!(database_name(&dbs, 0), "app");
    assert_eq!(database_name(&dbs, 5), "");
    let my = conn("a", "mysql", "x", SchemaTree { schemas: vec![Schema::default()], ..Default::default() });
    assert_eq!(schema_groups(&my), vec![NONE]);
    assert_eq!(database_name(&my, NONE), "");
    let none = ActiveConnection::new(ConnectionConfig::default());
    assert!(schema_groups(&none).is_empty());
}

#[test]
fn leaf_lists_are_read_from_the_right_level() {
    let t = pg(vec![]);
    assert_eq!(leaf_count(&t, 0, 0, Leaf::Views), 1);
    assert_eq!(leaf_name(&t, 0, 0, Leaf::Views, 0), "v");
    assert_eq!(leaf_name(&t, 0, 0, Leaf::Views, 1), "");
    assert_eq!(leaf_count(&t, 0, 0, Leaf::Indexes), 0);
    assert_eq!(leaf_count(&t, 3, 0, Leaf::Views), 0);
}
