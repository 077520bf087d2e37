use multidb::models::{Column, Database, Schema, SchemaTree, Table};
use multidb::nav_index::{search, Matches, SchemaIndex, TableKey, NONE};
use std::sync::Arc;

fn table(name: &str, columns: &[&str]) -> Table {
    Table {
        name: name.into(),
        table_type: "table".into(),
        size_bytes: None,
        columns: columns.iter().map(|c| Column { name: (*c).into(), ..Default::default() }).collect(),
    }
}

fn tree() -> SchemaTree {
    SchemaTree {
        schemas: vec![Schema {
            name: "public".into(),
            size_bytes: None,
            tables: vec![
                table("Orders", &["id", "customer_id", "placed_at"]),
                table("customers", &["id", "email"]),
                table("order_items", &["order_id", "sku"]),
            ],
            views: Vec::new(),
            indexes: Vec::new(),
        }],
        ..Default::default()
    }
}

fn found(m: &Matches) -> Vec<TableKey> {
    let mut v: Vec<TableKey> =
        m.tables.iter().find(|(id, _)| id == "c1").map(|(_, keys)| keys.clone()).unwrap_or_default();
    v.sort();
    v
}

#[test]
fn matches_table_names_regardless_of_case() {
    let idx = Arc::new(SchemaIndex::build("c1", 1, &tree()));
    // "Orders" and "order_items" both contain "order".
    assert_eq!(found(&search(&[idx.clone()], "order")), vec![(NONE, 0, 0), (NONE, 0, 2)]);
    assert_eq!(found(&search(&[idx], "ORDERS".to_lowercase().as_str())), vec![(NONE, 0, 0)]);
}

#[test]
fn matches_column_names_too() {
    let idx = Arc::new(SchemaIndex::build("c1", 1, &tree()));
    // Only customers has an "email" column.
    assert_eq!(found(&search(&[idx.clone()], "email")), vec![(NONE, 0, 1)]);
    // "customer_id" is a column of Orders, and "customers" is a table.
    assert_eq!(found(&search(&[idx], "customer")), vec![(NONE, 0, 0), (NONE, 0, 1)]);
}

#[test]
fn a_filter_that_matches_nothing_leaves_the_connection_out() {
    let idx = Arc::new(SchemaIndex::build("c1", 1, &tree()));
    let m = search(&[idx], "nothing_here");
    assert!(m.conns.is_empty());
    assert!(!m.conn_matches("c1"));
}

#[test]
fn substrings_that_are_not_prefixes_still_match() {
    let idx = Arc::new(SchemaIndex::build("c1", 1, &tree()));
    // "_items" starts no name, so this is the scan rather than the map.
    assert_eq!(found(&search(&[idx], "_items")), vec![(NONE, 0, 2)]);
}

#[test]
fn keys_follow_the_shape_of_the_tree() {
    // Flat (SQLite): no database, no schema.
    let flat = SchemaTree { tables: vec![table("t", &["a"])], ..Default::default() };
    let idx = Arc::new(SchemaIndex::build("c1", 1, &flat));
    assert_eq!(found(&search(&[idx], "t")), vec![(NONE, NONE, 0)]);

    // Postgres: databases, each with schemas.
    let nested = SchemaTree {
        databases: vec![Database {
            name: "app".into(),
            schemas: vec![Schema { name: "public".into(), tables: vec![table("t", &["a"])], ..Default::default() }],
            ..Default::default()
        }],
        ..Default::default()
    };
    let idx = Arc::new(SchemaIndex::build("c1", 1, &nested));
    assert_eq!(found(&search(&[idx], "t")), vec![(0, 0, 0)]);
}

#[test]
fn an_empty_filter_matches_nothing_and_keeps_the_filter() {
    let idx = Arc::new(SchemaIndex::build("c1", 7, &tree()));
    let m = search(&[idx], "");
    assert_eq!(m.filter, "");
    assert!(m.conns.is_empty() && m.tables.is_empty() && m.generations.is_empty());
}

#[test]
fn the_last_index_of_a_connection_decides_its_tables() {
    let old = Arc::new(SchemaIndex::build("c1", 1, &tree()));
    let new = Arc::new(SchemaIndex::build("c1", 2, &SchemaTree { tables: vec![table("email_log", &[])], ..Default::default() }));
    let m = search(&[old, new], "email");
    assert_eq!(m.conns, vec!["c1".to_string()]);
    assert_eq!(found(&m), vec![(NONE, NONE, 0)]);
    assert_eq!(m.generations, vec![("c1".to_string(), 2)]);
    assert!(m.table_matches("c1", (NONE, NONE, 0)));
    assert!(!m.table_matches("c1", (NONE, 0, 1)));
    assert!(!m.table_matches("c2", (NONE, NONE, 0)));
}

#[test]
fn a_column_name_with_a_line_break_is_searched_piece_by_piece_and_whole() {
    let t = SchemaTree { tables: vec![table("t", &["a\nbeta"])], ..Default::default() };
    let idx = Arc::new(SchemaIndex::build("c1", 1, &t));
    assert_eq!(idx.table_count(), 1);
    assert_eq!(found(&search(&[idx.clone()], "beta")), vec![(NONE, NONE, 0)]);
    assert_eq!(found(&search(&[idx], "a\nb")), vec![(NONE, NONE, 0)]);
}

#[test]
fn a_table_matches_only_under_a_connection_that_matches() {
    let idx = Arc::new(SchemaIndex::build("c1", 1, &tree()));
    let m = search(&[idx], "order");
    assert!(m.table_matches("c1", (NONE, 0, 0)));
    assert!(m.conn_matches("c1"));
    assert!(!m.table_matches("c2", (NONE, 0, 0)));
    assert!(!m.conn_matches("c2"));
    assert!(!m.table_matches("c1", (NONE, 0, 1)));
}
