use multidb::models::{Column, Relationship, RelationshipColumnPair, RelationshipTableRef, Schema, SchemaTree, Table};
use multidb::relationship::layout::{default_layout, Point};
use multidb::relationship::{
    build_graph, diagram_key, effective_selected_edge_id, filter_graph, merge_layout, query_sql, refresh_layout,
    fingerprint, schema_hash, DiagramEdge, DiagramGraph, LayoutStore,
};
use multidb::stable_json::JsonTree;

fn edge(id: &str) -> DiagramEdge {
    DiagramEdge {
        id: id.into(),
        constraint_name: String::new(),
        source_table_id: String::new(),
        target_table_id: String::new(),
        source_column_ids: Vec::new(),
        target_column_ids: Vec::new(),
        on_update: String::new(),
        on_delete: String::new(),
        is_self_referential: false,
    }
}

fn table(name: &str, cols: &[(&str, &str)]) -> Table {
    Table {
        name: name.into(),
        table_type: "table".into(),
        size_bytes: None,
        columns: cols
            .iter()
            .map(|(n, k)| Column {
                name: (*n).into(),
                column_type: "int".into(),
                nullable: false,
                default: String::new(),
                key: (*k).into(),
            })
            .collect(),
    }
}

fn rel(name: &str, src: &str, sc: &str, dst: &str, dc: &str) -> Relationship {
    Relationship {
        constraint_name: name.into(),
        source_table: RelationshipTableRef { schema_name: String::new(), table_name: src.into() },
        target_table: RelationshipTableRef { schema_name: String::new(), table_name: dst.into() },
        column_pairs: vec![RelationshipColumnPair { source_column: sc.into(), target_column: dc.into() }],
        on_update: String::new(),
        on_delete: "CASCADE".into(),
    }
}

fn at(layout: &[(String, Point)], id: &str) -> Point {
    layout.iter().find(|(k, _)| k == id).map(|(_, p)| *p).expect("a position for every box")
}

#[test]
fn layers_parents_before_children() {
    let tree = SchemaTree {
        tables: vec![
            table("orders", &[("id", "PRI"), ("customer_id", "")]),
            table("customers", &[("id", "PRI")]),
            table("audit", &[("id", "PRI")]),
        ],
        relationships: vec![rel("fk_orders_customer", "orders", "customer_id", "customers", "id")],
        ..Default::default()
    };
    let graph = build_graph(&tree);
    assert_eq!(graph.tables.iter().map(|t| t.id.as_str()).collect::<Vec<_>>(), ["audit", "customers", "orders"]);
    assert!(graph.tables[2].columns[1].is_foreign_key);
    let layout = default_layout(&graph);
    assert_eq!(at(&layout, "audit"), Point { x: 0, y: 0 });
    assert_eq!(at(&layout, "customers"), Point { x: 400, y: 0 });
    assert_eq!(at(&layout, "orders"), Point { x: 680, y: 0 });
    let filtered = filter_graph(&graph, "cust");
    assert_eq!(filtered.tables.len(), 2);
    assert_eq!(query_sql("mysql", "", "orders"), "SELECT * FROM `orders` LIMIT 100;");
}

#[test]
fn opening_a_table_selects_its_first_rows() {
    assert_eq!(query_sql("mysql", "", "orders"), "SELECT * FROM `orders` LIMIT 100;");
    assert_eq!(query_sql("postgres", "public", "orders"), "SELECT * FROM \"public\".\"orders\" LIMIT 100;");
    assert_eq!(query_sql("sqlite", "", "we\"ird"), "SELECT * FROM \"we\"\"ird\" LIMIT 100;");
    assert_eq!(query_sql("mysql", "db", "a`b"), "SELECT * FROM `db`.`a``b` LIMIT 100;");
}

#[test]
fn the_selected_edge_falls_back_to_the_first() {
    let edges = vec![edge("a::fk1"), edge("b::fk2")];
    assert_eq!(effective_selected_edge_id(&edges, "b::fk2"), "b::fk2");
    assert_eq!(effective_selected_edge_id(&edges, "gone"), "a::fk1");
    assert_eq!(effective_selected_edge_id(&[], "gone"), "");
}

#[test]
fn boxes_are_sized_by_their_widest_text() {
    let long = "a_rather_long_column_name_that_sets_the_width";
    let tree = SchemaTree {
        schemas: vec![Schema {
            name: "app".into(),
            size_bytes: None,
            tables: vec![table("t", &[(long, ""), ("id", "PRI")])],
            views: Vec::new(),
            indexes: Vec::new(),
        }],
        tables: vec![table("ignored_when_there_are_schemas", &[])],
        ..Default::default()
    };
    let graph = build_graph(&tree);
    assert_eq!(graph.tables.len(), 1);
    let t = &graph.tables[0];
    assert_eq!(t.id, "app.t");
    assert_eq!(t.title, "app.t");
    assert_eq!(t.schema_name, "app");
    // `name: int` in UTF-16 units, 7 pixels each, plus 56.
    let units = long.len() as u64 + 5;
    assert_eq!(t.width, units * 7 + 56);
    assert_eq!(t.height, 40 + 2 * 24);
    assert_eq!(t.columns[0].id, format!("app.t.{long}"));
    assert!(!t.columns[0].is_primary_key);
    assert!(t.columns[1].is_primary_key);
    assert!(!t.columns[1].is_foreign_key);
}

#[test]
fn short_boxes_keep_the_minimum_width() {
    let graph = build_graph(&SchemaTree { tables: vec![table("x", &[])], ..Default::default() });
    assert_eq!(graph.tables[0].width, 220);
    assert_eq!(graph.tables[0].height, 40);
}

#[test]
fn edges_are_sorted_and_mark_self_references() {
    let tree = SchemaTree {
        tables: vec![table("node", &[("id", "PRI"), ("parent_id", "")]), table("b", &[("id", "PRI")])],
        relationships: vec![
            rel("fk_self", "node", "parent_id", "node", "id"),
            rel("fk_b", "b", "id", "node", "id"),
        ],
        ..Default::default()
    };
    let graph = build_graph(&tree);
    assert_eq!(graph.edges.iter().map(|e| e.id.as_str()).collect::<Vec<_>>(), ["b::fk_b", "node::fk_self"]);
    assert!(graph.edges[1].is_self_referential);
    assert!(!graph.edges[0].is_self_referential);
    assert_eq!(graph.edges[1].source_column_ids, ["node.parent_id"]);
    assert_eq!(graph.edges[1].target_column_ids, ["node.id"]);
    assert_eq!(graph.edges[0].on_delete, "CASCADE");
}

#[test]
fn cycles_take_layers_in_order() {
    let tree = SchemaTree {
        tables: vec![table("b", &[("a_id", "")]), table("a", &[("b_id", "")])],
        relationships: vec![rel("fk_ab", "a", "b_id", "b", "id"), rel("fk_ba", "b", "a_id", "a", "id")],
        ..Default::default()
    };
    let layout = default_layout(&build_graph(&tree));
    assert_eq!(at(&layout, "a"), Point { x: 0, y: 0 });
    assert_eq!(at(&layout, "b"), Point { x: 280, y: 0 });
}

#[test]
fn boxes_of_a_layer_stack_downwards() {
    let tree = SchemaTree {
        tables: vec![
            table("parent", &[("id", "PRI")]),
            table("kid_a", &[("p", ""), ("x", "")]),
            table("kid_b", &[("p", "")]),
        ],
        relationships: vec![rel("fk_a", "kid_a", "p", "parent", "id"), rel("fk_b", "kid_b", "p", "parent", "id")],
        ..Default::default()
    };
    let layout = default_layout(&build_graph(&tree));
    assert_eq!(at(&layout, "parent"), Point { x: 0, y: 0 });
    assert_eq!(at(&layout, "kid_a"), Point { x: 280, y: 0 });
    // kid_a is 40 + 2 * 24 high, then 48 apart.
    assert_eq!(at(&layout, "kid_b"), Point { x: 280, y: 88 + 48 });
}

#[test]
fn an_edge_to_a_missing_table_still_widens_its_group() {
    let tree = SchemaTree {
        tables: vec![table("customers", &[("id", "PRI")]), table("zeta", &[])],
        relationships: vec![rel("fk_ghost", "ghost", "c", "customers", "id")],
        ..Default::default()
    };
    let layout = default_layout(&build_graph(&tree));
    assert_eq!(layout.len(), 2);
    assert_eq!(at(&layout, "customers"), Point { x: 0, y: 0 });
    // The group reaches to the missing table's layer: 280, then 180 apart.
    assert_eq!(at(&layout, "zeta"), Point { x: 460, y: 0 });
}

#[test]
fn filtering_keeps_hits_and_their_neighbours() {
    let tree = SchemaTree {
        tables: vec![
            table("orders", &[("id", "PRI"), ("customer_id", "")]),
            table("customers", &[("email", "")]),
            table("audit", &[("id", "PRI")]),
        ],
        relationships: vec![rel("fk_orders_customer", "orders", "customer_id", "customers", "email")],
        ..Default::default()
    };
    let graph = build_graph(&tree);
    let by_column = filter_graph(&graph, "  EMAIL ");
    assert_eq!(by_column.tables.iter().map(|t| t.id.as_str()).collect::<Vec<_>>(), ["customers", "orders"]);
    assert_eq!(by_column.edges.len(), 1);
    let nothing = filter_graph(&graph, "zzz");
    assert!(nothing.tables.is_empty() && nothing.edges.is_empty());
    let all = filter_graph(&graph, "   ");
    assert_eq!(all, graph);
    let alone = filter_graph(&graph, "aud");
    assert_eq!(alone.tables.len(), 1);
    assert!(alone.edges.is_empty());
}

#[test]
fn saved_positions_win_over_the_default() {
    let graph = DiagramGraph { tables: build_graph(&SchemaTree {
        tables: vec![table("a", &[]), table("b", &[]), table("c", &[])],
        ..Default::default()
    }).tables, edges: Vec::new() };
    let default = vec![("a".to_string(), (1, 1)), ("b".to_string(), (2, 2))];
    let saved = vec![("b".to_string(), (9, 9))];
    let merged = merge_layout(&graph, &default, Some(&saved), (0, 0));
    assert_eq!(merged, vec![("a".to_string(), (1, 1)), ("b".to_string(), (9, 9)), ("c".to_string(), (0, 0))]);
    let unsaved = merge_layout(&graph, &default, None, (0, 0));
    assert_eq!(unsaved[1], ("b".to_string(), (2, 2)));
}

#[test]
fn layout_keys_join_connection_and_hash() {
    assert_eq!(LayoutStore::<(u64, u64)>::key("conn-1", "811c9dc5"), "conn-1::811c9dc5");
}

#[test]
fn schema_hashes_are_fnv1a_over_utf16() {
    assert_eq!(fingerprint(""), "811c9dc5");
    assert_eq!(fingerprint("a"), "e40c292c");
    assert_eq!(fingerprint("{\"tables\":[]}"), "080cf948");
    assert_eq!(fingerprint("é😀"), "44cc4da1");
}

#[test]
fn a_schema_hash_is_the_fingerprint_of_its_stable_text() {
    let tree = JsonTree::Object(vec![("tables".to_string(), JsonTree::Array(vec![]))]);
    assert_eq!(schema_hash(&tree), "080cf948");
    let a = JsonTree::Object(vec![
        ("tables".to_string(), JsonTree::Array(vec![])),
        ("databases".to_string(), JsonTree::Null),
    ]);
    let b = JsonTree::Object(vec![
        ("databases".to_string(), JsonTree::Null),
        ("tables".to_string(), JsonTree::Array(vec![])),
    ]);
    assert_eq!(schema_hash(&a), schema_hash(&b));
    assert_eq!(schema_hash(&a), fingerprint("{\"databases\":null,\"tables\":[]}"));
}

fn abc_graph() -> DiagramGraph {
    DiagramGraph {
        tables: build_graph(&SchemaTree {
            tables: vec![table("a", &[]), table("b", &[]), table("c", &[])],
            ..Default::default()
        })
        .tables,
        edges: vec![edge("e1"), edge("e2")],
    }
}

#[test]
fn a_diagram_is_keyed_by_hash_and_table_ids() {
    let graph = abc_graph();
    let ids: Vec<String> = graph.tables.iter().map(|t| t.id.clone()).collect();
    assert_eq!(diagram_key("h1", &graph), format!("h1:{}", ids.join("|")));
    assert_eq!(diagram_key("", &graph), "");
    let none = DiagramGraph { tables: Vec::new(), edges: Vec::new() };
    assert_eq!(diagram_key("h1", &none), "h1:");
}

#[test]
fn the_layout_is_merged_again_only_when_its_key_changes() {
    let graph = abc_graph();
    let ids: Vec<String> = graph.tables.iter().map(|t| t.id.clone()).collect();
    let default = vec![(ids[0].clone(), (1, 1)), (ids[1].clone(), (2, 2))];
    let mut layout: Vec<(String, (u64, u64))> = Vec::new();
    let mut key = String::new();
    let mut selected = "gone".to_string();
    // First time: nothing to carry over, so nothing to save.
    assert!(!refresh_layout(&mut layout, &mut key, &mut selected, "k1".into(), &graph, &default, None, true, (0, 0)));
    assert_eq!(key, "k1");
    assert_eq!(layout, vec![(ids[0].clone(), (1, 1)), (ids[1].clone(), (2, 2)), (ids[2].clone(), (0, 0))]);
    assert_eq!(selected, "e1");
    // Same key: nothing happens.
    layout[2].1 = (7, 7);
    assert!(!refresh_layout(&mut layout, &mut key, &mut selected, "k1".into(), &graph, &default, None, true, (0, 0)));
    assert_eq!(layout[2].1, (7, 7));
    // A new key carries the boxes where they were, and asks to save.
    selected = "e2".into();
    assert!(refresh_layout(&mut layout, &mut key, &mut selected, "k2".into(), &graph, &default, None, true, (0, 0)));
    assert_eq!(layout[2].1, (7, 7));
    assert_eq!(selected, "e2");
    // A saved layout wins; without a hash nothing is saved.
    let saved = vec![(ids[0].clone(), (9, 9))];
    assert!(!refresh_layout(&mut layout, &mut key, &mut selected, "k3".into(), &graph, &default, Some(saved), false, (0, 0)));
    assert_eq!(layout, vec![(ids[0].clone(), (9, 9)), (ids[1].clone(), (2, 2)), (ids[2].clone(), (0, 0))]);
}
