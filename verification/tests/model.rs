use multidb::model::{
    apply_connection_order, display_structure, format_bytes, new_id, ordered_connection_options, pending_get,
    record_saved_connection, ActiveConnection, OutputTab, PendingEdits, Rows, ServerGroup,
};
use serde_json::Value;
use multidb::models::{ConnectionConfig, SchemaTree};
use std::sync::Arc;

fn conn(id: &str, name: &str) -> ActiveConnection {
    ActiveConnection::new(ConnectionConfig { id: id.into(), name: name.into(), ..Default::default() })
}

fn group(id: &str, title: &str, ids: &[&str]) -> ServerGroup {
    ServerGroup { id: id.into(), title: title.into(), connection_ids: ids.iter().map(|s| s.to_string()).collect() }
}

#[test]
fn bytes_format() {
    assert_eq!(format_bytes(Some(512)), "512 B");
    assert_eq!(format_bytes(Some(1536)), "1.5 KB");
    assert_eq!(format_bytes(Some(245760)), "240 KB");
    assert_eq!(format_bytes(None), "");
}

#[test]
fn sizes_round_half_up_and_pick_the_largest_unit() {
    assert_eq!(format_bytes(Some(0)), "");
    assert_eq!(format_bytes(Some(-5)), "");
    assert_eq!(format_bytes(Some(1)), "1 B");
    assert_eq!(format_bytes(Some(1023)), "1023 B");
    assert_eq!(format_bytes(Some(1024)), "1.0 KB");
    // 1.25 KB rounds up to 1.3, as toFixed does
    assert_eq!(format_bytes(Some(1280)), "1.3 KB");
    assert_eq!(format_bytes(Some(10 * 1024)), "10 KB");
    assert_eq!(format_bytes(Some(5 * 1024 * 1024)), "5.0 MB");
    assert_eq!(format_bytes(Some(3 * (1i64 << 40))), "3.0 TB");
    assert_eq!(format_bytes(Some(i64::MAX)), "8192 PB");
}

#[test]
fn a_fresh_connection_has_nothing_loaded() {
    let c = conn("a", "A");
    assert!(c.schema.is_none());
    assert!(!c.schema_loading);
    assert!(c.schema_error.is_none());
    assert_eq!(c.config.id, "a");
}

#[test]
fn pending_edits_are_looked_up_by_row_then_column() {
    let edits: PendingEdits = vec![(2, vec![(0, "x".to_string()), (1, "y".to_string())]), (2, vec![(3, "z".to_string())])];
    assert_eq!(pending_get(&edits, 2, 1), Some(&"y".to_string()));
    // only the first entry for the row is consulted
    assert_eq!(pending_get(&edits, 2, 3), None);
    assert_eq!(pending_get(&edits, 5, 0), None);
}

#[test]
fn a_connection_is_listed_once_under_the_first_group_that_names_it() {
    let conns = vec![conn("a", "A"), conn("b", "B"), conn("c", "C")];
    let groups = vec![group("g1", "One", &["b", "zz", "b"]), group("g2", "Two", &["b", "a"])];
    let s = display_structure(&conns, &groups);
    assert_eq!(s.groups.len(), 2);
    let ids = |v: &Vec<&ActiveConnection>| v.iter().map(|c| c.config.id.clone()).collect::<Vec<_>>();
    assert_eq!(ids(&s.groups[0].1), vec!["b"]);
    assert_eq!(ids(&s.groups[1].1), vec!["a"]);
    assert_eq!(s.ungrouped.iter().map(|c| c.config.id.clone()).collect::<Vec<_>>(), vec!["c"]);
}

#[test]
fn options_follow_the_sidebar_order_with_group_titles() {
    let conns = vec![conn("a", "A"), conn("b", "B")];
    let groups = vec![group("g", "Prod", &["b"])];
    assert_eq!(
        ordered_connection_options(&conns, &groups),
        vec![("b".to_string(), "Prod - B".to_string()), ("a".to_string(), "A".to_string())]
    );
}

#[test]
fn saved_order_sorts_stably_and_puts_unknown_ids_last() {
    let conns = vec![conn("a", "1"), conn("b", "2"), conn("c", "3"), conn("b", "4")];
    let order = vec!["c".to_string(), "b".to_string(), "c".to_string()];
    let out = apply_connection_order(conns, &order);
    let got: Vec<(String, String)> = out.iter().map(|c| (c.config.id.clone(), c.config.name.clone())).collect();
    assert_eq!(
        got,
        vec![
            ("c".to_string(), "3".to_string()),
            ("b".to_string(), "2".to_string()),
            ("b".to_string(), "4".to_string()),
            ("a".to_string(), "1".to_string())
        ]
    );
    let same = apply_connection_order(vec![conn("x", "1"), conn("y", "2")], &[]);
    assert_eq!(same.iter().map(|c| c.config.id.as_str()).collect::<Vec<_>>(), vec!["x", "y"]);
}

#[test]
fn new_ids_are_hyphenated_v4_uuids() {
    let id = new_id();
    assert_eq!(id.len(), 36);
    let b = id.as_bytes();
    assert_eq!((b[8], b[13], b[18], b[23], b[14]), (b'-', b'-', b'-', b'-', b'4'));
    assert!(id.chars().all(|c| c == '-' || c.is_ascii_digit() || ('a'..='f').contains(&c)));
    assert_ne!(new_id(), id);
}

#[test]
fn the_output_tabs_in_order() {
    let all = OutputTab::all();
    assert_eq!(all.map(|(_, l)| l), ["Results", "Messages", "History", "Saved"]);
    assert_eq!(all[0].0, OutputTab::Results);
}

#[test]
fn rows_chunk_lookup() {
    let mut rows = Rows::default();
    rows.push_chunk(vec![vec![Value::from(1)], vec![Value::from(2)]]);
    rows.push_chunk(vec![vec![Value::from(3)]]);
    assert_eq!(rows.len(), 3);
    assert_eq!(rows.get(2).unwrap()[0], Value::from(3));
    assert_eq!(rows.get(1).unwrap()[0], Value::from(2));
    assert!(rows.get(3).is_none());
}

#[test]
fn empty_chunks_add_no_rows() {
    let mut rows = Rows::new();
    assert!(rows.is_empty());
    rows.push_chunk(Vec::new());
    assert!(rows.is_empty());
    assert!(rows.get(0).is_none());
    rows.push_chunk(vec![vec![Value::from("a"), Value::Null]]);
    rows.push_chunk(Vec::new());
    rows.push_chunk(vec![vec![Value::from(true)], vec![Value::from(5)], vec![Value::from(6)]]);
    assert_eq!(rows.len(), 4);
    assert_eq!(rows.get(0).unwrap(), &vec![Value::from("a"), Value::Null]);
    assert_eq!(rows.get(1).unwrap()[0], Value::from(true));
    assert_eq!(rows.get(3).unwrap()[0], Value::from(6));
    assert!(rows.get(4).is_none());
}

#[test]
fn saving_a_new_connection_appends_it() {
    let mut conns = vec![conn("a", "A")];
    let form = ConnectionConfig { id: "b".into(), name: "B".into(), ..Default::default() };
    assert!(!record_saved_connection(&mut conns, form, None));
    assert_eq!(conns.len(), 2);
    assert_eq!(conns[1].config.name, "B");
    assert!(conns[1].schema.is_none());
}

#[test]
fn saving_over_a_connection_keeps_its_schema_unless_the_target_changed() {
    let mut conns = vec![conn("a", "A"), conn("b", "B")];
    conns[1].schema = Some(Arc::new(SchemaTree::default()));
    let before = conns[1].config.clone();
    let renamed = ConnectionConfig { name: "Bee".into(), ..before.clone() };
    assert!(record_saved_connection(&mut conns, renamed, Some(&before)));
    assert_eq!(conns.len(), 2);
    assert_eq!(conns[1].config.name, "Bee");
    assert!(conns[1].schema.is_some(), "a new name reaches the same server");
    let moved = ConnectionConfig { host: "elsewhere".into(), ..conns[1].config.clone() };
    let prev = conns[1].config.clone();
    assert!(record_saved_connection(&mut conns, moved, Some(&prev)));
    assert_eq!(conns[1].config.host, "elsewhere");
    assert!(conns[1].schema.is_none(), "a new host means loading the schema again");
    assert_eq!(conns[0].config.name, "A");
}
