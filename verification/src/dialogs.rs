//! The connection dialog's rules: which fields a connection needs, the
//! default port of a driver, tab colours, whether an edit touches how to
//! reach the server, and the name a SQLite file suggests.
use crate::bytes::str_eq;
use crate::models::ConnectionConfig;
use crate::text::{chars_vec, push_char};
use crate::unicode::{is_whitespace_spec, str_lower, to_lowercase, trim, trim_spec};
use vstd::prelude::*;
use vstd::string::StringExecFns;

verus! {

broadcast use vstd::string::group_string_axioms;

// ─── Authentication ────────────────────────────────────────────────────────

/// The chars of `s` without underscores, spaces and hyphens.
pub open spec fn without_separators(s: Seq<char>) -> Seq<char>
    decreases s.len(),
{
    if s.len() == 0 {
        s
    } else {
        let rest = without_separators(s.drop_last());
        let c = s.last();
        if c == '_' || c == ' ' || c == '-' {
            rest
        } else {
            rest.push(c)
        }
    }
}

/// The auth mode names AWS IAM, however it is spelled: `aws_iam`,
/// `AWS IAM`, `aws-iam`.
pub open spec fn is_aws_iam_spec(mode: Seq<char>) -> bool {
    str_lower(without_separators(mode)) == "awsiam"@
}

pub fn is_aws_iam(mode: &str) -> (r: bool)
    ensures
        r == is_aws_iam_spec(mode@),
{
    let chars = chars_vec(mode);
    let mut kept = String::new();
    let mut i: usize = 0;
    while i < chars.len()
        invariant
            chars@ == mode@,
            i <= chars@.len(),
            kept@ == without_separators(chars@.take(i as int)),
        decreases chars@.len() - i,
    {
        let c = chars[i];
        proof {
            assert(chars@.take(i + 1).drop_last() =~= chars@.take(i as int));
            assert(chars@.take(i + 1).last() == c);
        }
        if !(c == '_' || c == ' ' || c == '-') {
            push_char(&mut kept, c);
        }
        i += 1;
    }
    proof {
        assert(chars@.take(i as int) =~= chars@);
    }
    let lower = to_lowercase(kept.as_str());
    str_eq(lower.as_str(), "awsiam")
}

// ─── Validation ────────────────────────────────────────────────────────────

/// Nothing but white space.
pub open spec fn blank(s: Seq<char>) -> bool {
    trim_spec(s).len() == 0
}

/// Why a connection cannot be saved, or nothing when it can: a name (when
/// one is asked for); a database file for SQLite, else a host and a user;
/// and for MySQL with AWS IAM, a region and no Kubernetes port forward.
pub open spec fn validate_spec(f: ConnectionConfig, require_name: bool) -> Seq<char> {
    let sqlite = f.driver@ == "sqlite"@;
    let iam = f.driver@ == "mysql"@ && is_aws_iam_spec(f.auth_mode@);
    if require_name && blank(f.name@) {
        "Name is required"@
    } else if sqlite && blank(f.database@) {
        "SQLite database path is required"@
    } else if !sqlite && blank(f.host@) {
        "Host is required"@
    } else if !sqlite && blank(f.username@) {
        "Username is required"@
    } else if iam && blank(f.aws_region@) {
        "AWS region is required for IAM authentication"@
    } else if iam && f.use_kube_port_forward {
        "AWS IAM authentication is not supported with Kubernetes port forwarding"@
    } else {
        Seq::empty()
    }
}

fn is_blank(s: &str) -> (r: bool)
    ensures
        r == blank(s@),
{
    let t = trim(s);
    t.as_str().is_empty()
}

fn message(text: &str) -> (r: String)
    ensures
        r@ == text@,
{
    let mut r = String::new();
    r.append(text);
    r
}

/// The message the connection dialog shows for the form `f`, empty when the
/// form can be saved.
pub fn validate(f: &ConnectionConfig, require_name: bool) -> (r: String)
    ensures
        r@ == validate_spec(*f, require_name),
{
    let sqlite = str_eq(f.driver.as_str(), "sqlite");
    if require_name && is_blank(f.name.as_str()) {
        return message("Name is required");
    }
    if sqlite && is_blank(f.database.as_str()) {
        return message("SQLite database path is required");
    }
    if !sqlite {
        if is_blank(f.host.as_str()) {
            return message("Host is required");
        }
        if is_blank(f.username.as_str()) {
            return message("Username is required");
        }
    }
    if str_eq(f.driver.as_str(), "mysql") && is_aws_iam(f.auth_mode.as_str()) {
        if is_blank(f.aws_region.as_str()) {
            return message("AWS region is required for IAM authentication");
        }
        if f.use_kube_port_forward {
            return message("AWS IAM authentication is not supported with Kubernetes port forwarding");
        }
    }
    String::new()
}

/// The port a driver listens on unless told otherwise: `3306` for MySQL,
/// `5432` for Postgres, else none (`0`).
pub fn driver_default_port(driver: &str) -> (r: i32)
    ensures
        r == if driver@ == "mysql"@ {
            3306i32
        } else if driver@ == "postgres"@ {
            5432i32
        } else {
            0i32
        },
{
    if str_eq(driver, "mysql") {
        3306
    } else if str_eq(driver, "postgres") {
        5432
    } else {
        0
    }
}

// ─── Tab colours ───────────────────────────────────────────────────────────

pub open spec fn is_hex_digit(c: char) -> bool {
    ('0' <= c <= '9') || ('a' <= c <= 'f') || ('A' <= c <= 'F')
}

/// `#` and six hex digits.
pub open spec fn hex_shaped(v: Seq<char>) -> bool {
    &&& v.len() == 7
    &&& v[0] == '#'
    &&& forall|k: int| 1 <= k < 7 ==> is_hex_digit(#[trigger] v[k])
}

/// The value of a hex digit.
pub open spec fn hex_digit_value(c: char) -> int {
    if '0' <= c <= '9' {
        c as int - '0' as int
    } else if 'a' <= c <= 'f' {
        c as int - 'a' as int + 10
    } else {
        c as int - 'A' as int + 10
    }
}

/// The value of the hex digits `d`.
pub open spec fn hex_value(d: Seq<char>) -> int
    decreases d.len(),
{
    if d.len() == 0 {
        0
    } else {
        hex_value(d.drop_last()) * 16 + hex_digit_value(d.last())
    }
}

fn shaped(v: &Vec<char>) -> (r: bool)
    ensures
        r == hex_shaped(v@),
{
    if v.len() != 7 || v[0] != '#' {
        return false;
    }
    let mut k: usize = 1;
    while k < 7
        invariant
            v@.len() == 7,
            1 <= k <= 7,
            forall|j: int| 1 <= j < k ==> is_hex_digit(#[trigger] v@[j]),
        decreases 7 - k,
    {
        let c = v[k];
        if !(('0' <= c && c <= '9') || ('a' <= c && c <= 'f') || ('A' <= c && c <= 'F')) {
            return false;
        }
        k += 1;
    }
    true
}

/// A tab colour as stored: `#` and six hex digits in lowercase, else
/// nothing.
pub fn normalize_hex_color(value: &str) -> (r: String)
    ensures
        r@ == if hex_shaped(trim_spec(value@)) {
            str_lower(trim_spec(value@))
        } else {
            Seq::empty()
        },
{
    let v = trim(value);
    let chars = chars_vec(v.as_str());
    if shaped(&chars) {
        to_lowercase(v.as_str())
    } else {
        String::new()
    }
}

/// The colour a tab colour names, as `0xRRGGBB`.
pub fn parse_hex(value: &str) -> (r: Option<u32>)
    ensures
        r == if hex_shaped(trim_spec(value@)) {
            Some(hex_value(trim_spec(value@).subrange(1, 7)) as u32)
        } else {
            None::<u32>
        },
{
    let v = trim(value);
    let chars = chars_vec(v.as_str());
    if !shaped(&chars) {
        return None;
    }
    let mut n: u32 = 0;
    let mut k: usize = 1;
    proof {
        assert(chars@.subrange(1, 1) =~= Seq::<char>::empty());
    }
    while k < 7
        invariant
            chars@.len() == 7,
            hex_shaped(chars@),
            1 <= k <= 7,
            n == hex_value(chars@.subrange(1, k as int)),
            n < pow16_below(k as int - 1),

        decreases 7 - k,
    {
        let c = chars[k];
        let d: u32 = if '0' <= c && c <= '9' {
            (c as u32) - 48
        } else if 'a' <= c && c <= 'f' {
            (c as u32) - 87
        } else {
            (c as u32) - 55
        };
        proof {
            assert(is_hex_digit(chars@[k as int]));
            assert(chars@.subrange(1, k + 1).drop_last() =~= chars@.subrange(1, k as int));
            assert(chars@.subrange(1, k + 1).last() == c);
            assert(d == hex_digit_value(c));
            lemma_pow16_small(k as int - 1);
            assert(n * 16 + d < pow16_below(k as int)) by (nonlinear_arith)
                requires
                    n < pow16_below(k as int - 1),
                    d < 16,
                    pow16_below(k as int) == 16 * pow16_below(k as int - 1),
            ;
            assert(n * 16 + d < 16 * 0x100000) by (nonlinear_arith)
                requires
                    n < pow16_below(k as int - 1),
                    d < 16,
                    pow16_below(k as int - 1) <= 0x100000,
            ;
        }
        n = n * 16 + d;
        k += 1;
    }
    Some(n)
}

proof fn lemma_pow16_small(j: int)
    requires
        0 <= j <= 5,
    ensures
        1 <= pow16_below(j) <= 0x100000,
        pow16_below(j + 1) == 16 * pow16_below(j),
{
    reveal_with_fuel(pow16_below, 7);
}

/// `16` to the power `n`.
pub open spec fn pow16_below(n: int) -> int
    decreases n,
{
    if n <= 0 {
        1
    } else {
        16 * pow16_below(n - 1)
    }
}

// ─── Editing a saved connection ────────────────────────────────────────────

/// Two forms reach the same server the same way: every field but the name,
/// the tab colour and whether a password is saved agrees.
pub open spec fn same_target(p: ConnectionConfig, n: ConnectionConfig) -> bool {
    &&& p.driver@ == n.driver@
    &&& p.host@ == n.host@
    &&& p.port == n.port
    &&& p.username@ == n.username@
    &&& p.password@ == n.password@
    &&& p.auth_mode@ == n.auth_mode@
    &&& p.database@ == n.database@
    &&& p.dsn@ == n.dsn@
    &&& p.aws_region@ == n.aws_region@
    &&& p.aws_profile@ == n.aws_profile@
    &&& p.ssl_ca_path@ == n.ssl_ca_path@
    &&& p.use_kube_port_forward == n.use_kube_port_forward
    &&& p.kubectl_path@ == n.kubectl_path@
    &&& p.kube_context@ == n.kube_context@
    &&& p.kube_namespace@ == n.kube_namespace@
    &&& p.kube_resource@ == n.kube_resource@
    &&& p.kube_local_port == n.kube_local_port
    &&& p.kube_remote_port == n.kube_remote_port
}

/// Whether saving `next` over `prev` changes how to reach the server (a new
/// connection always does), so a live session must reconnect.
pub fn connection_target_changed(prev: Option<&ConnectionConfig>, next: &ConnectionConfig) -> (r: bool)
    ensures
        r == match prev {
            None => true,
            Some(p) => !same_target(*p, *next),
        },
{
    let p = match prev {
        None => {
            return true;
        },
        Some(p) => p,
    };
    !str_eq(p.driver.as_str(), next.driver.as_str()) || !str_eq(p.host.as_str(), next.host.as_str()) || p.port
        != next.port || !str_eq(p.username.as_str(), next.username.as_str()) || !str_eq(
        p.password.as_str(),
        next.password.as_str(),
    ) || !str_eq(p.auth_mode.as_str(), next.auth_mode.as_str()) || !str_eq(
        p.database.as_str(),
        next.database.as_str(),
    ) || !str_eq(p.dsn.as_str(), next.dsn.as_str()) || !str_eq(p.aws_region.as_str(), next.aws_region.as_str())
        || !str_eq(p.aws_profile.as_str(), next.aws_profile.as_str()) || !str_eq(
        p.ssl_ca_path.as_str(),
        next.ssl_ca_path.as_str(),
    ) || p.use_kube_port_forward != next.use_kube_port_forward || !str_eq(
        p.kubectl_path.as_str(),
        next.kubectl_path.as_str(),
    ) || !str_eq(p.kube_context.as_str(), next.kube_context.as_str()) || !str_eq(
        p.kube_namespace.as_str(),
        next.kube_namespace.as_str(),
    ) || !str_eq(p.kube_resource.as_str(), next.kube_resource.as_str()) || p.kube_local_port
        != next.kube_local_port || p.kube_remote_port != next.kube_remote_port
}

// ─── A name for a SQLite file ──────────────────────────────────────────────

/// What follows the last `/` or `\` of a path, or all of it.
pub open spec fn last_segment(path: Seq<char>) -> Seq<char>
    decreases path.len(),
{
    if path.len() == 0 {
        path
    } else if path.last() == '/' || path.last() == '\\' {
        Seq::empty()
    } else {
        last_segment(path.drop_last()).push(path.last())
    }
}

/// `c` in lowercase, for ASCII letters.
pub open spec fn ascii_lower(c: char) -> char {
    if 'A' <= c <= 'Z' {
        ((c as u32) + 32) as char
    } else {
        c
    }
}

/// `f` ends with `ext`, case aside, and has something before it.
pub open spec fn strips(f: Seq<char>, ext: Seq<char>) -> bool {
    &&& f.len() > ext.len()
    &&& forall|k: int| 0 <= k < ext.len() ==> ascii_lower(#[trigger] f[f.len() - ext.len() + k]) == ext[k]
}

/// The name a database file suggests: its file name, trimmed, without a
/// `.sqlite`, `.sqlite3`, `.db` or `.db3` extension in any case.
pub open spec fn inferred_name(path: Seq<char>) -> Seq<char> {
    let f = trim_spec(last_segment(path));
    if strips(f, ".sqlite"@) {
        f.take(f.len() - 7)
    } else if strips(f, ".sqlite3"@) {
        f.take(f.len() - 8)
    } else if strips(f, ".db"@) {
        f.take(f.len() - 3)
    } else if strips(f, ".db3"@) {
        f.take(f.len() - 4)
    } else {
        f
    }
}

/// `f` ends with `ext` (written in lower case), each letter in either case.
pub open spec fn ends_in_either_case(f: Seq<char>, ext: Seq<char>) -> bool {
    &&& f.len() >= ext.len()
    &&& forall|k: int|
        0 <= k < ext.len() ==> (#[trigger] f[f.len() - ext.len() + k] == ext[k] || ('a' <= ext[k] && ext[k]
            <= 'z' && f[f.len() - ext.len() + k] as int + 32 == ext[k] as int))
}

proof fn lemma_ascii_lower_is(c: char, e: char)
    requires
        !('A' <= e && e <= 'Z'),
    ensures
        (ascii_lower(c) == e) == (c == e || ('a' <= e && e <= 'z' && c as int + 32 == e as int)),
{
}

proof fn lemma_strips_iff(f: Seq<char>, ext: Seq<char>)
    requires
        forall|k: int| 0 <= k < ext.len() ==> !('A' <= #[trigger] ext[k] && ext[k] <= 'Z'),
    ensures
        strips(f, ext) == (f.len() > ext.len() && ends_in_either_case(f, ext)),
{
    if f.len() > ext.len() {
        assert forall|k: int| 0 <= k < ext.len() implies (ascii_lower(#[trigger] f[f.len() - ext.len() + k])
            == ext[k]) == (f[f.len() - ext.len() + k] == ext[k] || ('a' <= ext[k] && ext[k] <= 'z'
            && f[f.len() - ext.len() + k] as int + 32 == ext[k] as int)) by {
            lemma_ascii_lower_is(f[f.len() - ext.len() + k], ext[k]);
        }
    }
}

proof fn lemma_segment_after(dir: Seq<char>, sep: char, f: Seq<char>)
    requires
        sep == '/' || sep == '\\',
        forall|k: int| 0 <= k < f.len() ==> #[trigger] f[k] != '/' && f[k] != '\\',
    ensures
        last_segment(dir.push(sep) + f) == f,
    decreases f.len(),
{
    let s = dir.push(sep) + f;
    if f.len() == 0 {
        assert(s.last() == sep);
    } else {
        assert(s.last() == f[f.len() - 1]);
        assert(s.drop_last() =~= dir.push(sep) + f.drop_last());
        lemma_segment_after(dir, sep, f.drop_last());
        assert(f.drop_last().push(f.last()) =~= f);
    }
}

/// A database file's name gives the connection's name: the file name (what
/// follows the last `/` or `\`) without its `.sqlite`, `.sqlite3`, `.db` or
/// `.db3` extension, in any case, when something precedes the extension; any
/// other file name whole.
pub proof fn law_name_without_extension(dir: Seq<char>, sep: char, f: Seq<char>)
    requires
        sep == '/' || sep == '\\',
        f.len() > 0,
        forall|k: int| 0 <= k < f.len() ==> #[trigger] f[k] != '/' && f[k] != '\\',
        !is_whitespace_spec(f[0]),
        !is_whitespace_spec(f[f.len() - 1]),
    ensures
        f.len() > 7 && ends_in_either_case(f, seq!['.', 's', 'q', 'l', 'i', 't', 'e']) ==> inferred_name(
            dir.push(sep) + f,
        ) == f.take(f.len() - 7),
        f.len() > 8 && ends_in_either_case(f, seq!['.', 's', 'q', 'l', 'i', 't', 'e', '3']) ==> inferred_name(
            dir.push(sep) + f,
        ) == f.take(f.len() - 8),
        f.len() > 3 && ends_in_either_case(f, seq!['.', 'd', 'b']) ==> inferred_name(dir.push(sep) + f)
            == f.take(f.len() - 3),
        f.len() > 4 && ends_in_either_case(f, seq!['.', 'd', 'b', '3']) ==> inferred_name(dir.push(sep) + f)
            == f.take(f.len() - 4),
        !(f.len() > 7 && ends_in_either_case(f, seq!['.', 's', 'q', 'l', 'i', 't', 'e'])) && !(f.len() > 8
            && ends_in_either_case(f, seq!['.', 's', 'q', 'l', 'i', 't', 'e', '3'])) && !(f.len() > 3
            && ends_in_either_case(f, seq!['.', 'd', 'b'])) && !(f.len() > 4 && ends_in_either_case(
            f,
            seq!['.', 'd', 'b', '3'],
        )) ==> inferred_name(dir.push(sep) + f) == f,
{
    reveal_strlit(".sqlite");
    reveal_strlit(".sqlite3");
    reveal_strlit(".db");
    reveal_strlit(".db3");
    let sq = seq!['.', 's', 'q', 'l', 'i', 't', 'e'];
    let sq3 = seq!['.', 's', 'q', 'l', 'i', 't', 'e', '3'];
    let db = seq!['.', 'd', 'b'];
    let db3 = seq!['.', 'd', 'b', '3'];
    assert(".sqlite"@ =~= sq);
    assert(".sqlite3"@ =~= sq3);
    assert(".db"@ =~= db);
    assert(".db3"@ =~= db3);
    lemma_segment_after(dir, sep, f);
    crate::unicode::lemma_trim_start_at(f, 0);
    assert(f.skip(0) =~= f);
    crate::unicode::lemma_trim_end_at(f, f.len() as int);
    assert(f.take(f.len() as int) =~= f);
    assert(trim_spec(last_segment(dir.push(sep) + f)) == f);
    lemma_strips_iff(f, sq);
    lemma_strips_iff(f, sq3);
    lemma_strips_iff(f, db);
    lemma_strips_iff(f, db3);
    let n = f.len() as int;
    if strips(f, sq3) {
        assert(ascii_lower(f[n - 8 + 7]) == sq3[7]);
        assert(ascii_lower(f[n - 8 + 6]) == sq3[6]);
        assert(ascii_lower(f[n - 1]) == '3' && ascii_lower(f[n - 2]) == 'e');
    }
    if strips(f, db3) {
        assert(ascii_lower(f[n - 4 + 3]) == db3[3]);
        assert(ascii_lower(f[n - 4 + 2]) == db3[2]);
        assert(ascii_lower(f[n - 1]) == '3' && ascii_lower(f[n - 2]) == 'b');
    }
    if strips(f, sq) {
        assert(ascii_lower(f[n - 7 + 6]) == sq[6]);
        assert(ascii_lower(f[n - 1]) == 'e');
    }
    if strips(f, db) {
        assert(ascii_lower(f[n - 3 + 2]) == db[2]);
        assert(ascii_lower(f[n - 1]) == 'b');
    }
}

fn ends_with_ext(f: &Vec<char>, ext: &str) -> (r: bool)
    ensures
        r == strips(f@, ext@),
{
    let e = chars_vec(ext);
    if f.len() <= e.len() {
        return false;
    }
    let base = f.len() - e.len();
    let mut k: usize = 0;
    while k < e.len()
        invariant
            e@ == ext@,
            f@.len() == f.len(),
            f@.len() > e@.len(),
            base == f@.len() - e@.len(),
            k <= e@.len(),
            forall|j: int| 0 <= j < k ==> ascii_lower(#[trigger] f@[f@.len() - e@.len() + j]) == e@[j],
        decreases e@.len() - k,
    {
        assert(base + k < f@.len());
        let c = f[base + k];
        let lower = if 'A' <= c && c <= 'Z' {
            (((c as u32) + 32) as u8) as char
        } else {
            c
        };
        if lower != e[k] {
            return false;
        }
        k += 1;
    }
    true
}

fn prefix_string(f: &Vec<char>, n: usize) -> (r: String)
    requires
        n <= f@.len(),
    ensures
        r@ == f@.take(n as int),
{
    let mut r = String::new();
    let mut k: usize = 0;
    while k < n
        invariant
            n <= f@.len(),
            k <= n,
            r@ == f@.take(k as int),
        decreases n - k,
    {
        push_char(&mut r, f[k]);
        proof {
            assert(f@.take(k + 1) =~= f@.take(k as int).push(f@[k as int]));
        }
        k += 1;
    }
    r
}

/// The name a new SQLite connection takes from its database file.
pub fn infer_connection_name(path: &str) -> (r: String)
    ensures
        r@ == inferred_name(path@),
{
    let p = chars_vec(path);
    // What follows the last separator.
    let mut seg = String::new();
    let mut i: usize = 0;
    while i < p.len()
        invariant
            p@ == path@,
            i <= p@.len(),
            seg@ == last_segment(p@.take(i as int)),
        decreases p@.len() - i,
    {
        let c = p[i];
        proof {
            assert(p@.take(i + 1).drop_last() =~= p@.take(i as int));
            assert(p@.take(i + 1).last() == c);
        }
        if c == '/' || c == '\\' {
            seg = String::new();
        } else {
            push_char(&mut seg, c);
        }
        i += 1;
    }
    proof {
        assert(p@.take(i as int) =~= p@);
    }
    let trimmed = trim(seg.as_str());
    let f = chars_vec(trimmed.as_str());
    proof {
        reveal_strlit(".sqlite");
        reveal_strlit(".sqlite3");
        reveal_strlit(".db");
        reveal_strlit(".db3");
    }
    if ends_with_ext(&f, ".sqlite") {
        prefix_string(&f, f.len() - 7)
    } else if ends_with_ext(&f, ".sqlite3") {
        prefix_string(&f, f.len() - 8)
    } else if ends_with_ext(&f, ".db") {
        prefix_string(&f, f.len() - 3)
    } else if ends_with_ext(&f, ".db3") {
        prefix_string(&f, f.len() - 4)
    } else {
        trimmed
    }
}

// ─── Naming a saved query, a server group ──────────────────────────────────

/// What the title dialog was opened for: saving a query for a connection, or
/// renaming a saved query.
pub enum TitleDialogKind {
    Save { conn_id: String, sql: String },
    Edit { id: i64, current: String },
}

/// What saving the title dialog does.
pub enum TitleAction {
    /// The title is blank: the dialog stays open as it was.
    KeepOpen(TitleDialogKind),
    /// Save `sql` for the connection under `title`.
    SaveQuery { conn_id: String, title: String, sql: String },
    /// Rename saved query `id` to `title`.
    Rename { id: i64, title: String },
    /// The title did not change: the dialog just closes.
    Close,
}

/// Saving the title dialog with `text` typed: a blank title keeps it open; a
/// new query is saved under the text as typed; a rename takes the trimmed
/// text, and only when it differs from the current title.
pub fn title_dialog_save(kind: TitleDialogKind, text: &str) -> (r: TitleAction)
    ensures
        blank(text@) ==> r == TitleAction::KeepOpen(kind),
        !blank(text@) ==> match kind {
            TitleDialogKind::Save { conn_id, sql } => (r matches TitleAction::SaveQuery {
                conn_id: c,
                title: t,
                sql: q,
            } && c == conn_id && t@ == text@ && q == sql),
            TitleDialogKind::Edit { id, current } => if trim_spec(text@) != current@ {
                r matches TitleAction::Rename { id: i, title: t } && i == id && t@ == trim_spec(text@)
            } else {
                r is Close
            },
        },
{
    let trimmed = trim(text);
    if trimmed.as_str().is_empty() {
        return TitleAction::KeepOpen(kind);
    }
    match kind {
        TitleDialogKind::Save { conn_id, sql } => {
            let mut title = String::new();
            title.append(text);
            TitleAction::SaveQuery { conn_id, title, sql }
        },
        TitleDialogKind::Edit { id, current } => {
            if !str_eq(trimmed.as_str(), current.as_str()) {
                TitleAction::Rename { id, title: trimmed }
            } else {
                TitleAction::Close
            }
        },
    }
}

/// The title a new server group gets: the text trimmed, which must not be
/// empty.
pub fn server_group_title(text: &str) -> (r: Result<String, String>)
    ensures
        match r {
            Ok(t) => !blank(text@) && t@ == trim_spec(text@),
            Err(e) => blank(text@) && e@ == "Title is required"@,
        },
{
    let t = trim(text);
    if t.as_str().is_empty() {
        return Err(message("Title is required"));
    }
    Ok(t)
}

} // verus!
