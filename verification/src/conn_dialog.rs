//! The connection dialog as the values of its fields: how it opens on a
//! connection, what it reads back as a connection, and how choosing a driver,
//! an authentication mode or the Kubernetes port forward changes it.
use crate::bytes::str_eq;
use crate::dialogs::{driver_default_port, is_aws_iam, is_aws_iam_spec, validate, validate_spec};
use crate::model::{decimal, decimal_string, new_id, uuid_shaped};
use crate::models::ConnectionConfig;
use crate::number_text::{parse_i32, parse_i32_str};
use crate::text::push_char;
use crate::unicode::{trim, trim_spec};
use vstd::prelude::*;
use vstd::string::StringExecFns;

verus! {

broadcast use vstd::string::group_string_axioms;

/// `i32::to_string`: a minus sign for a negative number, then the digits.
pub open spec fn int_text(v: int) -> Seq<char> {
    if v < 0 {
        seq!['-'] + decimal((-v) as nat)
    } else {
        decimal(v as nat)
    }
}

/// A number as a text field shows it.
pub fn port_text(p: i32) -> (r: String)
    ensures
        r@ == int_text(p as int),
{
    if p < 0 {
        let mut s = String::new();
        push_char(&mut s, '-');
        let m: i64 = -(p as i64);
        let digits = decimal_string(m as u128);
        s.append(digits.as_str());
        s
    } else {
        decimal_string(p as u128)
    }
}

/// What a number field holds: its trimmed text as an `i32`, or 0 when that
/// does not parse.
pub open spec fn number_of(t: Seq<char>) -> int {
    match parse_i32(trim_spec(t)) {
        Some(v) => v,
        None => 0,
    }
}

fn number(t: &String) -> (r: i32)
    ensures
        r as int == number_of(t@),
{
    let s = trim(t.as_str());
    match parse_i32_str(s.as_str()) {
        Some(v) => v,
        None => 0,
    }
}

fn copy(s: &String) -> (r: String)
    ensures
        r@ == s@,
{
    s.clone()
}

fn text_of(s: &str) -> (r: String)
    ensures
        r@ == s@,
{
    let mut r = String::new();
    r.append(s);
    r
}

/// The authentication mode the dialog shows for a saved one: AWS IAM in
/// whatever spelling, else password when none is saved.
pub open spec fn shown_auth_mode(mode: Seq<char>) -> Seq<char> {
    if is_aws_iam_spec(mode) {
        "awsIam"@
    } else if mode.len() == 0 {
        "password"@
    } else {
        mode
    }
}

/// The connection dialog's state: the text in each field, and the switches.
pub struct ConnectionDialog {
    pub editing: Option<ConnectionConfig>,
    pub id: String,
    pub driver: String,
    pub auth_mode: String,
    pub has_saved_password: bool,
    pub tab_text_black: bool,
    pub use_kube: bool,
    pub name: String,
    pub tab_color: String,
    pub host: String,
    pub port: String,
    pub username: String,
    pub password: String,
    pub aws_region: String,
    pub aws_profile: String,
    pub ssl_ca_path: String,
    pub database: String,
    pub dsn: String,
    pub kubectl_path: String,
    pub kube_context: String,
    pub kube_namespace: String,
    pub kube_resource: String,
    pub kube_local_port: String,
    pub kube_remote_port: String,
    pub testing: bool,
    pub stopping: bool,
    pub active_test_id: String,
    pub stop_requested: bool,
    pub saving: bool,
    pub test_result: String,
    pub test_error: String,
}

/// The dialog as it opens on the settings `f`, nothing tested or saved yet.
pub open spec fn opened_on(d: ConnectionDialog, f: ConnectionConfig) -> bool {
    &&& d.id@ == f.id@
    &&& d.driver@ == f.driver@
    &&& d.auth_mode@ == shown_auth_mode(f.auth_mode@)
    &&& d.has_saved_password == f.has_saved_password
    &&& d.tab_text_black == f.tab_text_black
    &&& d.use_kube == f.use_kube_port_forward
    &&& d.name@ == f.name@
    &&& d.tab_color@ == f.tab_color@
    &&& d.host@ == f.host@
    &&& d.port@ == int_text(f.port as int)
    &&& d.username@ == f.username@
    &&& d.password@ == f.password@
    &&& d.aws_region@ == f.aws_region@
    &&& d.aws_profile@ == f.aws_profile@
    &&& d.ssl_ca_path@ == f.ssl_ca_path@
    &&& d.database@ == f.database@
    &&& d.dsn@ == f.dsn@
    &&& d.kubectl_path@ == f.kubectl_path@
    &&& d.kube_context@ == f.kube_context@
    &&& d.kube_namespace@ == f.kube_namespace@
    &&& d.kube_resource@ == f.kube_resource@
    &&& d.kube_local_port@ == int_text(f.kube_local_port as int)
    &&& d.kube_remote_port@ == int_text(f.kube_remote_port as int)
    &&& !d.testing && !d.stopping && !d.stop_requested && !d.saving
    &&& d.active_test_id@.len() == 0
    &&& d.test_result@.len() == 0
    &&& d.test_error@.len() == 0
}

/// The settings a new connection starts from: a fresh id, MySQL on
/// localhost at 3306 with a password, everything else empty.
pub open spec fn fresh_settings(f: ConnectionConfig) -> bool {
    &&& uuid_shaped(f.id@)
    &&& f.driver@ == "mysql"@
    &&& f.host@ == "localhost"@
    &&& f.port == 3306
    &&& f.auth_mode@ == "password"@
    &&& f.name@.len() == 0 && f.tab_color@.len() == 0 && f.username@.len() == 0
    &&& f.password@.len() == 0 && f.database@.len() == 0 && f.dsn@.len() == 0
    &&& f.aws_region@.len() == 0 && f.aws_profile@.len() == 0 && f.ssl_ca_path@.len() == 0
    &&& f.kubectl_path@.len() == 0 && f.kube_context@.len() == 0
    &&& f.kube_namespace@.len() == 0 && f.kube_resource@.len() == 0
    &&& !f.tab_text_black && !f.has_saved_password && !f.use_kube_port_forward
    &&& f.kube_local_port == 0 && f.kube_remote_port == 0
}

/// The connection the dialog reads back: each field's text, the numbers
/// parsed (0 where they do not parse).
pub open spec fn read_back(d: ConnectionDialog, f: ConnectionConfig) -> bool {
    &&& f.id@ == d.id@
    &&& f.name@ == d.name@
    &&& f.driver@ == d.driver@
    &&& f.tab_color@ == d.tab_color@
    &&& f.tab_text_black == d.tab_text_black
    &&& f.host@ == d.host@
    &&& f.port as int == number_of(d.port@)
    &&& f.username@ == d.username@
    &&& f.password@ == d.password@
    &&& f.has_saved_password == d.has_saved_password
    &&& f.auth_mode@ == d.auth_mode@
    &&& f.database@ == d.database@
    &&& f.dsn@ == d.dsn@
    &&& f.aws_region@ == d.aws_region@
    &&& f.aws_profile@ == d.aws_profile@
    &&& f.ssl_ca_path@ == d.ssl_ca_path@
    &&& f.use_kube_port_forward == d.use_kube
    &&& f.kubectl_path@ == d.kubectl_path@
    &&& f.kube_context@ == d.kube_context@
    &&& f.kube_namespace@ == d.kube_namespace@
    &&& f.kube_resource@ == d.kube_resource@
    &&& f.kube_local_port as int == number_of(d.kube_local_port@)
    &&& f.kube_remote_port as int == number_of(d.kube_remote_port@)
}

/// AWS IAM is chosen, which only MySQL offers.
pub open spec fn iam_selected(d: ConnectionDialog) -> bool {
    d.driver@ == "mysql"@ && is_aws_iam_spec(d.auth_mode@)
}

impl ConnectionDialog {
    fn opened(f: &ConnectionConfig, editing: Option<ConnectionConfig>) -> (d: Self)
        ensures
            opened_on(d, *f),
            d.editing == editing,
    {
        let auth_mode = if is_aws_iam(f.auth_mode.as_str()) {
            text_of("awsIam")
        } else if f.auth_mode.as_str().is_empty() {
            text_of("password")
        } else {
            copy(&f.auth_mode)
        };
        proof {
            reveal_strlit("awsIam");
            reveal_strlit("password");
        }
        ConnectionDialog {
            editing,
            id: copy(&f.id),
            driver: copy(&f.driver),
            auth_mode,
            has_saved_password: f.has_saved_password,
            tab_text_black: f.tab_text_black,
            use_kube: f.use_kube_port_forward,
            name: copy(&f.name),
            tab_color: copy(&f.tab_color),
            host: copy(&f.host),
            port: port_text(f.port),
            username: copy(&f.username),
            password: copy(&f.password),
            aws_region: copy(&f.aws_region),
            aws_profile: copy(&f.aws_profile),
            ssl_ca_path: copy(&f.ssl_ca_path),
            database: copy(&f.database),
            dsn: copy(&f.dsn),
            kubectl_path: copy(&f.kubectl_path),
            kube_context: copy(&f.kube_context),
            kube_namespace: copy(&f.kube_namespace),
            kube_resource: copy(&f.kube_resource),
            kube_local_port: port_text(f.kube_local_port),
            kube_remote_port: port_text(f.kube_remote_port),
            testing: false,
            stopping: false,
            active_test_id: String::new(),
            stop_requested: false,
            saving: false,
            test_result: String::new(),
            test_error: String::new(),
        }
    }

    /// The dialog on a saved connection, or on the settings a new one
    /// starts from.
    pub fn new(editing: Option<ConnectionConfig>) -> (d: Self)
        ensures
            d.editing == editing,
            match editing {
                Some(f) => opened_on(d, f),
                None => exists|f: ConnectionConfig| fresh_settings(f) && opened_on(d, f),
            },
    {
        match editing {
            Some(f) => {
                let d = ConnectionDialog::opened(&f, None);
                ConnectionDialog { editing: Some(f), ..d }
            },
            None => {
                let f = ConnectionConfig {
                    id: new_id(),
                    name: String::new(),
                    driver: text_of("mysql"),
                    tab_color: String::new(),
                    tab_text_black: false,
                    host: text_of("localhost"),
                    port: 3306,
                    username: String::new(),
                    password: String::new(),
                    has_saved_password: false,
                    auth_mode: text_of("password"),
                    database: String::new(),
                    dsn: String::new(),
                    aws_region: String::new(),
                    aws_profile: String::new(),
                    ssl_ca_path: String::new(),
                    use_kube_port_forward: false,
                    kubectl_path: String::new(),
                    kube_context: String::new(),
                    kube_namespace: String::new(),
                    kube_resource: String::new(),
                    kube_local_port: 0,
                    kube_remote_port: 0,
                };
                let d = ConnectionDialog::opened(&f, None);
                proof {
                    assert(fresh_settings(f));
                }
                d
            },
        }
    }

    /// Whether AWS IAM authentication is chosen (MySQL only).
    pub fn aws_iam_selected(&self) -> (r: bool)
        ensures
            r == iam_selected(*self),
    {
        str_eq(self.driver.as_str(), "mysql") && is_aws_iam(self.auth_mode.as_str())
    }

    /// The hint in the empty database field: a file for SQLite, else that
    /// the field may stay empty.
    pub fn database_placeholder(&self) -> (r: &'static str)
        ensures
            r@ == if self.driver@ == "sqlite"@ {
                "C:\\\\path\\\\to\\\\file.db or :memory:"@
            } else {
                "Optional (leave blank to browse all databases)"@
            },
    {
        if str_eq(self.driver.as_str(), "sqlite") {
            "C:\\\\path\\\\to\\\\file.db or :memory:"
        } else {
            "Optional (leave blank to browse all databases)"
        }
    }

    /// The connection the fields describe.
    pub fn form(&self) -> (f: ConnectionConfig)
        ensures
            read_back(*self, f),
    {
        ConnectionConfig {
            id: copy(&self.id),
            name: copy(&self.name),
            driver: copy(&self.driver),
            tab_color: copy(&self.tab_color),
            tab_text_black: self.tab_text_black,
            host: copy(&self.host),
            port: number(&self.port),
            username: copy(&self.username),
            password: copy(&self.password),
            has_saved_password: self.has_saved_password,
            auth_mode: copy(&self.auth_mode),
            database: copy(&self.database),
            dsn: copy(&self.dsn),
            aws_region: copy(&self.aws_region),
            aws_profile: copy(&self.aws_profile),
            ssl_ca_path: copy(&self.ssl_ca_path),
            use_kube_port_forward: self.use_kube,
            kubectl_path: copy(&self.kubectl_path),
            kube_context: copy(&self.kube_context),
            kube_namespace: copy(&self.kube_namespace),
            kube_resource: copy(&self.kube_resource),
            kube_local_port: number(&self.kube_local_port),
            kube_remote_port: number(&self.kube_remote_port),
        }
    }

    /// Why the fields cannot be saved, or nothing when they can.
    pub fn validate(&self, require_name: bool) -> (r: String)
        ensures
            forall|f: ConnectionConfig| read_back(*self, f) ==> r@ == validate_spec(f, require_name),
    {
        let f = self.form();
        validate(&f, require_name)
    }

    /// Another driver is chosen: the port becomes the driver's own, and any
    /// driver but MySQL goes back to a password, forgetting the one typed or
    /// saved.
    pub fn driver_changed(&mut self, driver: &str)
        ensures
            final(self).driver@ == driver@,
            final(self).port@ == int_text(
                if driver@ == "mysql"@ {
                    3306
                } else if driver@ == "postgres"@ {
                    5432
                } else {
                    0
                },
            ),
            driver@ != "mysql"@ ==> final(self).auth_mode@ == "password"@ && final(self).password@.len() == 0
                && !final(self).has_saved_password,
            driver@ == "mysql"@ ==> final(self).auth_mode == old(self).auth_mode && final(self).password
                == old(self).password && final(self).has_saved_password == old(self).has_saved_password,
            final(self).use_kube == old(self).use_kube,
            final(self).host == old(self).host,
            final(self).kube_local_port == old(self).kube_local_port,
            final(self).kube_remote_port == old(self).kube_remote_port,
    {
        self.driver = text_of(driver);
        let port = driver_default_port(driver);
        self.port = port_text(port);
        if !str_eq(driver, "mysql") {
            self.auth_mode = text_of("password");
            self.password = String::new();
            self.has_saved_password = false;
            proof {
                reveal_strlit("password");
            }
        }
    }

    /// Another authentication mode is chosen: AWS IAM in whatever spelling,
    /// else password. IAM on MySQL forgets the password and the port forward.
    pub fn auth_changed(&mut self, mode: &str)
        ensures
            final(self).auth_mode@ == if is_aws_iam_spec(mode@) {
                "awsIam"@
            } else {
                "password"@
            },
            final(self).driver == old(self).driver,
            iam_selected(*final(self)) ==> final(self).password@.len() == 0 && !final(self).has_saved_password
                && !final(self).use_kube,
            !iam_selected(*final(self)) ==> final(self).password == old(self).password
                && final(self).has_saved_password == old(self).has_saved_password && final(self).use_kube
                == old(self).use_kube,
    {
        self.auth_mode = if is_aws_iam(mode) {
            text_of("awsIam")
        } else {
            text_of("password")
        };
        proof {
            reveal_strlit("awsIam");
            reveal_strlit("password");
        }
        if self.aws_iam_selected() {
            self.password = String::new();
            self.has_saved_password = false;
            self.use_kube = false;
        }
    }

    /// Turns the Kubernetes port forward on or off (never with AWS IAM). Turned
    /// on, each forward port still at 0 takes the connection's port.
    pub fn toggle_kube(&mut self)
        ensures
            iam_selected(*old(self)) ==> *final(self) == *old(self),
            !iam_selected(*old(self)) ==> {
                let on = !old(self).use_kube;
                let p = number_of(old(self).port@);
                &&& final(self).use_kube == on
                &&& final(self).kube_remote_port@ == if on && number_of(old(self).kube_remote_port@) == 0 {
                    int_text(p)
                } else {
                    old(self).kube_remote_port@
                }
                &&& final(self).kube_local_port@ == if on && number_of(old(self).kube_local_port@) == 0 {
                    int_text(p)
                } else {
                    old(self).kube_local_port@
                }
                &&& final(self).port == old(self).port
                &&& final(self).driver == old(self).driver
                &&& final(self).auth_mode == old(self).auth_mode
            },
    {
        if self.aws_iam_selected() {
            return;
        }
        self.use_kube = !self.use_kube;
        if self.use_kube {
            let port = number(&self.port);
            let remote = number(&self.kube_remote_port);
            let local = number(&self.kube_local_port);
            if remote == 0 {
                self.kube_remote_port = port_text(port);
            }
            if local == 0 {
                self.kube_local_port = port_text(port);
            }
        }
    }

    /// Starts testing the connection the fields describe: clears what the
    /// last test said, and gives the settings to test, or, when the fields
    /// cannot be tested, shows why and gives nothing. A test gets a fresh id.
    pub fn start_test(&mut self) -> (r: Option<ConnectionConfig>)
        ensures
            final(self).test_result@.len() == 0,
            forall|f: ConnectionConfig| #[trigger] read_back(*old(self), f) ==> {
                let err = validate_spec(f, false);
                if err.len() > 0 {
                    &&& r is None
                    &&& final(self).test_error@ == err
                    &&& final(self).testing == old(self).testing
                    &&& final(self).active_test_id == old(self).active_test_id
                } else {
                    &&& r matches Some(c) && read_back(*old(self), c)
                    &&& final(self).test_error@.len() == 0
                    &&& final(self).testing
                    &&& !final(self).stopping
                    &&& !final(self).stop_requested
                    &&& uuid_shaped(final(self).active_test_id@)
                }
            },
    {
        let err = self.validate(false);
        let f = self.form();
        self.test_result = String::new();
        self.test_error = String::new();
        if !err.as_str().is_empty() {
            self.test_error = err;
            return None;
        }
        self.testing = true;
        self.stopping = false;
        self.stop_requested = false;
        self.active_test_id = new_id();
        Some(f)
    }

    /// A test came back: success, or its error (or that it was cancelled,
    /// when a stop was asked for). The test that was running ends when this
    /// is its answer.
    pub fn test_finished(&mut self, test_id: &str, result: Result<(), String>)
        ensures
            match result {
                Ok(_) => final(self).test_result@ == "Connection successful!"@ && final(self).test_error
                    == old(self).test_error,
                Err(e) => final(self).test_error@ == (if old(self).stop_requested {
                    "Connection test cancelled"@
                } else {
                    e@
                }) && final(self).test_result == old(self).test_result,
            },
            old(self).active_test_id@ == test_id@ ==> final(self).active_test_id@.len() == 0
                && !final(self).testing && !final(self).stopping,
            old(self).active_test_id@ != test_id@ ==> final(self).active_test_id == old(self).active_test_id
                && final(self).testing == old(self).testing && final(self).stopping == old(self).stopping,
            final(self).stop_requested == old(self).stop_requested,
    {
        match result {
            Ok(_) => {
                self.test_result = text_of("Connection successful!");
            },
            Err(e) => {
                self.test_error = if self.stop_requested {
                    text_of("Connection test cancelled")
                } else {
                    e
                };
            },
        }
        if str_eq(self.active_test_id.as_str(), test_id) {
            self.active_test_id = String::new();
            self.testing = false;
            self.stopping = false;
        }
    }

    /// Asks the running test to stop: gives its id to cancel, or nothing when
    /// no test runs or a stop is already on its way.
    pub fn stop_test(&mut self) -> (r: Option<String>)
        ensures
            old(self).active_test_id@.len() == 0 || old(self).stopping ==> r is None && *final(self) == *old(
                self,
            ),
            !(old(self).active_test_id@.len() == 0 || old(self).stopping) ==> {
                &&& r matches Some(id) && id@ == old(self).active_test_id@
                &&& final(self).stopping
                &&& final(self).stop_requested
                &&& final(self).active_test_id == old(self).active_test_id
                &&& final(self).testing == old(self).testing
            },
    {
        if self.active_test_id.as_str().is_empty() || self.stopping {
            return None;
        }
        self.stopping = true;
        self.stop_requested = true;
        Some(copy(&self.active_test_id))
    }

    /// Cancelling the test failed: its error shows, and stopping may be
    /// asked for again.
    pub fn stop_failed(&mut self, error: String)
        ensures
            final(self).test_error == error,
            !final(self).stopping,
            final(self).active_test_id == old(self).active_test_id,
            final(self).testing == old(self).testing,
    {
        self.test_error = error;
        self.stopping = false;
    }
}

} // verus!
