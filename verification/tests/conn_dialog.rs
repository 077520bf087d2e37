use multidb::conn_dialog::{port_text, ConnectionDialog};
use multidb::models::ConnectionConfig;

fn saved() -> ConnectionConfig {
    ConnectionConfig {
        id: "c1".into(),
        name: "Prod".into(),
        driver: "postgres".into(),
        host: "db".into(),
        port: 5432,
        username: "me".into(),
        password: "secret".into(),
        has_saved_password: true,
        auth_mode: "".into(),
        kube_local_port: 15432,
        ..Default::default()
    }
}

#[test]
fn numbers_show_as_rust_prints_them() {
    assert_eq!(port_text(3306), "3306");
    assert_eq!(port_text(0), "0");
    assert_eq!(port_text(-5), "-5");
    assert_eq!(port_text(i32::MIN), "-2147483648");
}

#[test]
fn a_new_connection_starts_as_local_mysql() {
    let d = ConnectionDialog::new(None);
    assert_eq!(d.id.len(), 36);
    assert_eq!(d.driver, "mysql");
    assert_eq!(d.host, "localhost");
    assert_eq!(d.port, "3306");
    assert_eq!(d.auth_mode, "password");
    assert_eq!(d.kube_local_port, "0");
    assert!(d.editing.is_none());
    assert_eq!(d.database_placeholder(), "Optional (leave blank to browse all databases)");
}

#[test]
fn a_saved_connection_fills_the_fields() {
    let d = ConnectionDialog::new(Some(saved()));
    assert_eq!(d.name, "Prod");
    assert_eq!(d.port, "5432");
    assert_eq!(d.auth_mode, "password", "no saved mode means a password");
    assert_eq!(d.kube_local_port, "15432");
    assert_eq!(d.editing, Some(saved()));
    let iam = ConnectionDialog::new(Some(ConnectionConfig { auth_mode: "AWS_IAM".into(), ..saved() }));
    assert_eq!(iam.auth_mode, "awsIam");
}

#[test]
fn the_fields_read_back_as_a_connection() {
    let mut d = ConnectionDialog::new(Some(saved()));
    d.port = " 5433 ".into();
    d.kube_remote_port = "abc".into();
    d.kube_local_port = "-7".into();
    let f = d.form();
    assert_eq!(f.port, 5433);
    assert_eq!(f.kube_remote_port, 0);
    assert_eq!(f.kube_local_port, -7);
    assert_eq!(f.host, "db");
    assert_eq!(f.password, "secret");
    assert_eq!(d.validate(true), "");
    d.name = "  ".into();
    assert_eq!(d.validate(true), "Name is required");
    assert_eq!(d.validate(false), "");
}

#[test]
fn choosing_a_driver_sets_its_port() {
    let mut d = ConnectionDialog::new(None);
    d.password = "pw".into();
    d.has_saved_password = true;
    d.driver_changed("mysql");
    assert_eq!(d.port, "3306");
    assert_eq!(d.password, "pw");
    d.driver_changed("postgres");
    assert_eq!(d.port, "5432");
    assert_eq!(d.password, "");
    assert!(!d.has_saved_password);
    d.driver_changed("sqlite");
    assert_eq!(d.port, "0");
    assert_eq!(d.database_placeholder(), "C:\\\\path\\\\to\\\\file.db or :memory:");
}

#[test]
fn aws_iam_on_mysql_drops_the_password_and_the_forward() {
    let mut d = ConnectionDialog::new(None);
    d.password = "pw".into();
    d.use_kube = true;
    d.auth_changed("AWS-IAM");
    assert_eq!(d.auth_mode, "awsIam");
    assert!(d.aws_iam_selected());
    assert_eq!(d.password, "");
    assert!(!d.use_kube);
    d.auth_changed("whatever");
    assert_eq!(d.auth_mode, "password");
    let mut pg = ConnectionDialog::new(Some(saved()));
    pg.auth_changed("awsiam");
    assert_eq!(pg.auth_mode, "awsIam");
    assert!(!pg.aws_iam_selected(), "only MySQL offers IAM");
    assert_eq!(pg.password, "secret");
}

#[test]
fn turning_the_forward_on_fills_empty_ports() {
    let mut d = ConnectionDialog::new(Some(saved()));
    d.toggle_kube();
    assert!(d.use_kube);
    assert_eq!(d.kube_remote_port, "5432");
    assert_eq!(d.kube_local_port, "15432");
    d.toggle_kube();
    assert!(!d.use_kube);
    assert_eq!(d.kube_remote_port, "5432");
    let mut iam = ConnectionDialog::new(None);
    iam.auth_changed("awsIam");
    iam.toggle_kube();
    assert!(!iam.use_kube, "no port forward with IAM");
}

#[test]
fn a_test_runs_until_its_answer_comes() {
    let mut d = ConnectionDialog::new(Some(saved()));
    d.test_result = "old".into();
    let cfg = d.start_test().expect("the fields can be tested");
    assert_eq!(cfg.host, "db");
    assert!(d.testing);
    assert_eq!(d.test_result, "");
    assert_eq!(d.active_test_id.len(), 36);
    let id = d.active_test_id.clone();
    d.test_finished("someone else", Ok(()));
    assert!(d.testing, "an older test's answer does not end this one");
    assert_eq!(d.test_result, "Connection successful!");
    d.test_finished(&id, Err("refused".into()));
    assert!(!d.testing);
    assert_eq!(d.active_test_id, "");
    assert_eq!(d.test_error, "refused");
}

#[test]
fn a_test_needs_fields_that_can_be_tested() {
    let mut d = ConnectionDialog::new(Some(ConnectionConfig { host: " ".into(), ..saved() }));
    assert!(d.start_test().is_none());
    assert_eq!(d.test_error, "Host is required");
    assert!(!d.testing);
}

#[test]
fn stopping_a_test_cancels_it_once() {
    let mut d = ConnectionDialog::new(Some(saved()));
    assert_eq!(d.stop_test(), None, "nothing runs yet");
    d.start_test();
    let id = d.active_test_id.clone();
    assert_eq!(d.stop_test(), Some(id.clone()));
    assert!(d.stopping && d.stop_requested);
    assert_eq!(d.stop_test(), None, "a stop is already on its way");
    d.stop_failed("no such test".into());
    assert!(!d.stopping);
    assert_eq!(d.test_error, "no such test");
    d.test_finished(&id, Err("timeout".into()));
    assert_eq!(d.test_error, "Connection test cancelled");
    assert!(!d.testing);
}
