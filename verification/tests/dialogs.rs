use multidb::dialogs::{
    connection_target_changed, driver_default_port, infer_connection_name, is_aws_iam, normalize_hex_color,
    parse_hex, server_group_title, title_dialog_save, validate, TitleAction, TitleDialogKind,
};
use multidb::models::ConnectionConfig;

fn form(driver: &str) -> ConnectionConfig {
    ConnectionConfig {
        name: "prod".into(),
        driver: driver.into(),
        host: "db.local".into(),
        username: "app".into(),
        database: "/tmp/x.db".into(),
        ..Default::default()
    }
}

#[test]
fn iam_is_recognised_however_it_is_spelled() {
    assert!(is_aws_iam("aws_iam"));
    assert!(is_aws_iam("AWS IAM"));
    assert!(is_aws_iam("aws-iam"));
    assert!(!is_aws_iam("password"));
}

#[test]
fn a_complete_form_validates() {
    assert_eq!(validate(&form("postgres"), true), "");
    assert_eq!(validate(&form("sqlite"), true), "");
}

#[test]
fn each_missing_field_has_its_message() {
    let mut f = form("postgres");
    f.name = "  ".into();
    assert_eq!(validate(&f, true), "Name is required");
    assert_eq!(validate(&f, false), "");
    let mut s = form("sqlite");
    s.database = " ".into();
    assert_eq!(validate(&s, true), "SQLite database path is required");
    let mut h = form("mysql");
    h.host = String::new();
    assert_eq!(validate(&h, true), "Host is required");
    let mut u = form("mysql");
    u.username = "\t".into();
    assert_eq!(validate(&u, true), "Username is required");
}

#[test]
fn iam_needs_a_region_and_no_port_forward() {
    let mut f = form("mysql");
    f.auth_mode = "aws_iam".into();
    assert_eq!(validate(&f, true), "AWS region is required for IAM authentication");
    f.aws_region = "eu-west-1".into();
    assert_eq!(validate(&f, true), "");
    f.use_kube_port_forward = true;
    assert_eq!(validate(&f, true), "AWS IAM authentication is not supported with Kubernetes port forwarding");
    // Only MySQL uses IAM.
    let mut p = form("postgres");
    p.auth_mode = "aws_iam".into();
    assert_eq!(validate(&p, true), "");
}

#[test]
fn drivers_have_default_ports() {
    assert_eq!(driver_default_port("mysql"), 3306);
    assert_eq!(driver_default_port("postgres"), 5432);
    assert_eq!(driver_default_port("sqlite"), 0);
}

#[test]
fn tab_colours_are_hex() {
    assert_eq!(normalize_hex_color(" #A0b1C2 "), "#a0b1c2");
    assert_eq!(normalize_hex_color("#a0b1c"), "");
    assert_eq!(normalize_hex_color("a0b1c2f"), "");
    assert_eq!(normalize_hex_color("#a0b1cg"), "");
    assert_eq!(parse_hex("#FF8000"), Some(0xff8000));
    assert_eq!(parse_hex("#000000"), Some(0));
    assert_eq!(parse_hex("red"), None);
}

#[test]
fn only_connection_fields_change_the_target() {
    let a = form("postgres");
    assert!(connection_target_changed(None, &a));
    let mut renamed = a.clone();
    renamed.name = "other".into();
    renamed.tab_color = "#ffffff".into();
    assert!(!connection_target_changed(Some(&a), &renamed));
    let mut moved = a.clone();
    moved.port = 6543;
    assert!(connection_target_changed(Some(&a), &moved));
    let mut kube = a.clone();
    kube.kube_namespace = "ns".into();
    assert!(connection_target_changed(Some(&a), &kube));
}

#[test]
fn sqlite_files_name_their_connection() {
    assert_eq!(infer_connection_name("/home/me/data/shop.sqlite"), "shop");
    assert_eq!(infer_connection_name("C:\\dbs\\Sales.DB3"), "Sales");
    assert_eq!(infer_connection_name("notes.Sqlite3"), "notes");
    assert_eq!(infer_connection_name("  plain.txt "), "plain.txt");
    assert_eq!(infer_connection_name("/dir/.db"), ".db");
    assert_eq!(infer_connection_name("/dir/"), "");
}

#[test]
fn a_blank_title_keeps_the_dialog_open() {
    let kind = TitleDialogKind::Save { conn_id: "c".into(), sql: "select 1".into() };
    assert!(matches!(title_dialog_save(kind, "   "), TitleAction::KeepOpen(TitleDialogKind::Save { .. })));
    let kind = TitleDialogKind::Edit { id: 3, current: "Old".into() };
    assert!(matches!(title_dialog_save(kind, ""), TitleAction::KeepOpen(TitleDialogKind::Edit { id: 3, .. })));
}

#[test]
fn a_new_query_is_saved_under_the_title_as_typed() {
    let kind = TitleDialogKind::Save { conn_id: "c".into(), sql: "select 1".into() };
    match title_dialog_save(kind, " Users ") {
        TitleAction::SaveQuery { conn_id, title, sql } => {
            assert_eq!(conn_id, "c");
            assert_eq!(title, " Users ");
            assert_eq!(sql, "select 1");
        }
        _ => panic!("expected a save"),
    }
}

#[test]
fn a_rename_takes_the_trimmed_title_when_it_changed() {
    let kind = TitleDialogKind::Edit { id: 7, current: "Old".into() };
    match title_dialog_save(kind, "  New ") {
        TitleAction::Rename { id, title } => {
            assert_eq!(id, 7);
            assert_eq!(title, "New");
        }
        _ => panic!("expected a rename"),
    }
    let same = TitleDialogKind::Edit { id: 7, current: "Old".into() };
    assert!(matches!(title_dialog_save(same, " Old "), TitleAction::Close));
}

#[test]
fn a_server_group_needs_a_title() {
    assert_eq!(server_group_title("  Production "), Ok("Production".to_string()));
    assert_eq!(server_group_title("  "), Err("Title is required".to_string()));
}
