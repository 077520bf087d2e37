//! Primary collation elements for `localeCompare`: an approximation of ICU
//! root collation for the characters found in identifiers and query results:
//! whitespace < punctuation/symbols < digits < letters, case-insensitive at the
//! primary level.
use crate::text::chars_vec;
use crate::unicode::{
    alphabetic, is_alphabetic, is_ascii_digit, is_ascii_digit_spec, is_control, is_control_spec,
    is_whitespace, is_whitespace_spec, lower_first, to_lower_first,
};
use vstd::prelude::*;

verus! {

/// A primary collation element. Digits carry their digits (a whole run,
/// zero-padded, in numeric mode); the others a number ordered within their kind.
pub enum Primary {
    Space(u32),
    Punct(u32),
    Digits(Vec<char>),
    Letter(u32),
}

/// A primary element as a kind rank (space, punctuation, digits, letter), a
/// number and, for digits, the digits.
pub type PrimaryView = (u8, u32, Seq<char>);

impl Primary {
    pub open spec fn view(&self) -> PrimaryView {
        match self {
            Primary::Space(n) => (0u8, *n, Seq::<char>::empty()),
            Primary::Punct(n) => (1u8, *n, Seq::<char>::empty()),
            Primary::Digits(d) => (2u8, 0u32, d@),
            Primary::Letter(n) => (3u8, *n, Seq::<char>::empty()),
        }
    }
}

/// The primary elements as views.
pub open spec fn prims_view(v: Seq<Primary>) -> Seq<PrimaryView> {
    v.map_values(|p: Primary| p.view())
}

/// Position of `c` in ``_-,;:!?.'"()[]{}@*/\&#%`^+<=>|~$``.
pub open spec fn punct_index(c: char) -> Option<u32> {
    if c == '_' { Some(0u32) }
    else if c == '-' { Some(1u32) }
    else if c == ',' { Some(2u32) }
    else if c == ';' { Some(3u32) }
    else if c == ':' { Some(4u32) }
    else if c == '!' { Some(5u32) }
    else if c == '?' { Some(6u32) }
    else if c == '.' { Some(7u32) }
    else if c == '\'' { Some(8u32) }
    else if c == '"' { Some(9u32) }
    else if c == '(' { Some(10u32) }
    else if c == ')' { Some(11u32) }
    else if c == '[' { Some(12u32) }
    else if c == ']' { Some(13u32) }
    else if c == '{' { Some(14u32) }
    else if c == '}' { Some(15u32) }
    else if c == '@' { Some(16u32) }
    else if c == '*' { Some(17u32) }
    else if c == '/' { Some(18u32) }
    else if c == '\\' { Some(19u32) }
    else if c == '&' { Some(20u32) }
    else if c == '#' { Some(21u32) }
    else if c == '%' { Some(22u32) }
    else if c == '`' { Some(23u32) }
    else if c == '^' { Some(24u32) }
    else if c == '+' { Some(25u32) }
    else if c == '<' { Some(26u32) }
    else if c == '=' { Some(27u32) }
    else if c == '>' { Some(28u32) }
    else if c == '|' { Some(29u32) }
    else if c == '~' { Some(30u32) }
    else if c == '$' { Some(31u32) }
    else { None }
}

fn punct_pos(c: char) -> (r: Option<u32>)
    ensures
        r == punct_index(c),
{
    match c {
        '_' => Some(0),
        '-' => Some(1),
        ',' => Some(2),
        ';' => Some(3),
        ':' => Some(4),
        '!' => Some(5),
        '?' => Some(6),
        '.' => Some(7),
        '\'' => Some(8),
        '"' => Some(9),
        '(' => Some(10),
        ')' => Some(11),
        '[' => Some(12),
        ']' => Some(13),
        '{' => Some(14),
        '}' => Some(15),
        '@' => Some(16),
        '*' => Some(17),
        '/' => Some(18),
        '\\' => Some(19),
        '&' => Some(20),
        '#' => Some(21),
        '%' => Some(22),
        '`' => Some(23),
        '^' => Some(24),
        '+' => Some(25),
        '<' => Some(26),
        '=' => Some(27),
        '>' => Some(28),
        '|' => Some(29),
        '~' => Some(30),
        '$' => Some(31),
        _ => None,
    }
}

/// Lower-case Latin-1 letters with an accent, folded to their base letter.
pub open spec fn fold_accent_spec(c: char) -> char {
    if '\u{e0}' <= c && c <= '\u{e5}' {
        'a'
    } else if c == '\u{e7}' {
        'c'
    } else if '\u{e8}' <= c && c <= '\u{eb}' {
        'e'
    } else if '\u{ec}' <= c && c <= '\u{ef}' {
        'i'
    } else if c == '\u{f1}' {
        'n'
    } else if '\u{f2}' <= c && c <= '\u{f6}' {
        'o'
    } else if '\u{f9}' <= c && c <= '\u{fc}' {
        'u'
    } else if c == '\u{fd}' || c == '\u{ff}' {
        'y'
    } else {
        c
    }
}

pub fn fold_accent(c: char) -> (r: char)
    ensures
        r == fold_accent_spec(c),
{
    if '\u{e0}' <= c && c <= '\u{e5}' {
        'a'
    } else if c == '\u{e7}' {
        'c'
    } else if '\u{e8}' <= c && c <= '\u{eb}' {
        'e'
    } else if '\u{ec}' <= c && c <= '\u{ef}' {
        'i'
    } else if c == '\u{f1}' {
        'n'
    } else if '\u{f2}' <= c && c <= '\u{f6}' {
        'o'
    } else if '\u{f9}' <= c && c <= '\u{fc}' {
        'u'
    } else if c == '\u{fd}' || c == '\u{ff}' {
        'y'
    } else {
        c
    }
}

/// The primary element of a char that is not a digit.
pub open spec fn single_prim(c: char) -> PrimaryView {
    if is_whitespace_spec(c) || is_control_spec(c) {
        (0u8, c as u32, Seq::<char>::empty())
    } else if punct_index(c) is Some {
        (1u8, punct_index(c).unwrap(), Seq::<char>::empty())
    } else if alphabetic(c) {
        (3u8, fold_accent_spec(lower_first(c)) as u32, Seq::<char>::empty())
    } else {
        (1u8, (1000 + c as u32) as u32, Seq::<char>::empty())
    }
}

/// Where the run of ASCII digits that starts at `i` ends.
pub open spec fn digit_run_end(cs: Seq<char>, i: int) -> int
    decreases cs.len() - i,
{
    if 0 <= i < cs.len() && is_ascii_digit_spec(cs[i]) {
        digit_run_end(cs, i + 1)
    } else {
        i
    }
}

/// A digit run without its leading zeros.
pub open spec fn trim_zeros(t: Seq<char>) -> Seq<char>
    decreases t.len(),
{
    if t.len() > 0 && t[0] == '0' {
        trim_zeros(t.drop_first())
    } else {
        t
    }
}

/// A digit run as a number key: leading zeros dropped (a bare zero kept), then
/// left-padded with zeros to forty places.
pub open spec fn number_key(run: Seq<char>) -> Seq<char> {
    let t = if trim_zeros(run).len() == 0 {
        seq!['0']
    } else {
        trim_zeros(run)
    };
    if t.len() >= 40 {
        t
    } else {
        Seq::new((40 - t.len()) as nat, |i: int| '0') + t
    }
}

/// The primary elements of `cs` from index `i` on.
pub open spec fn prims_from(cs: Seq<char>, numeric: bool, i: int) -> Seq<PrimaryView>
    decreases cs.len() - i,
{
    if i < 0 || i >= cs.len() {
        seq![]
    } else if is_ascii_digit_spec(cs[i]) {
        if numeric {
            let j = digit_run_end(cs, i);
            if j <= i || j > cs.len() {
                seq![]
            } else {
                seq![(2u8, 0u32, number_key(cs.subrange(i, j)))] + prims_from(cs, numeric, j)
            }
        } else {
            seq![(2u8, 0u32, seq![cs[i]])] + prims_from(cs, numeric, i + 1)
        }
    } else {
        seq![single_prim(cs[i])] + prims_from(cs, numeric, i + 1)
    }
}

proof fn lemma_digit_run(cs: Seq<char>, i: int)
    requires
        0 <= i < cs.len(),
        is_ascii_digit_spec(cs[i]),
    ensures
        i < digit_run_end(cs, i) <= cs.len(),
    decreases cs.len() - i,
{
    assert(digit_run_end(cs, i) == digit_run_end(cs, i + 1));
    if i + 1 < cs.len() && is_ascii_digit_spec(cs[i + 1]) {
        lemma_digit_run(cs, i + 1);
    } else {
        assert(digit_run_end(cs, i + 1) == i + 1);
    }
}

/// The rank of a char's kind in the collation order: white space and
/// control chars, then punctuation and symbols (any char that is neither a
/// digit nor a letter), then digits, then letters.
pub open spec fn char_rank(c: char) -> int {
    if is_ascii_digit_spec(c) {
        2
    } else if is_whitespace_spec(c) || is_control_spec(c) {
        0
    } else if punct_index(c) is Some {
        1
    } else if alphabetic(c) {
        3
    } else {
        1
    }
}

/// The first primary element of a non-empty string is of its first char's kind.
pub proof fn lemma_first_prim_rank(cs: Seq<char>, numeric: bool)
    requires
        cs.len() > 0,
    ensures
        prims_from(cs, numeric, 0).len() > 0,
        prims_from(cs, numeric, 0)[0].0 as int == char_rank(cs[0]),
{
    if is_ascii_digit_spec(cs[0]) && numeric {
        lemma_digit_run(cs, 0);
    }
}

/// The number key of the digits `cs[start..end]`.
fn number_key_of(cs: &Vec<char>, start: usize, end: usize) -> (r: Vec<char>)
    requires
        start <= end <= cs@.len(),
    ensures
        r@ == number_key(cs@.subrange(start as int, end as int)),
{
    let ghost run = cs@.subrange(start as int, end as int);
    let mut t = start;
    proof {
        assert(run.subrange(0, run.len() as int) =~= run);
    }
    while t < end && cs[t] == '0'
        invariant
            start <= t <= end <= cs@.len(),
            run == cs@.subrange(start as int, end as int),
            trim_zeros(run) == trim_zeros(cs@.subrange(t as int, end as int)),
        decreases end - t,
    {
        proof {
            let cur = cs@.subrange(t as int, end as int);
            assert(cur.drop_first() =~= cs@.subrange(t + 1, end as int));
        }
        t = t + 1;
    }
    let ghost trimmed = cs@.subrange(t as int, end as int);
    proof {
        if trimmed.len() > 0 {
            assert(trimmed[0] == cs@[t as int]);
        }
        assert(trim_zeros(trimmed) == trimmed);
    }
    let len = if t == end { 1 } else { end - t };
    let mut r: Vec<char> = Vec::new();
    let mut k: usize = 0;
    if len < 40 {
        while k < 40 - len
            invariant
                len < 40,
                k <= 40 - len,
                r@ == Seq::new(k as nat, |i: int| '0'),
            decreases 40 - len - k,
        {
            r.push('0');
            proof {
                assert(r@ =~= Seq::new((k + 1) as nat, |i: int| '0'));
            }
            k = k + 1;
        }
    }
    let ghost pad = r@;
    if t == end {
        r.push('0');
        proof {
            assert(trim_zeros(run).len() == 0);
            assert(r@ =~= pad + seq!['0']);
        }
    } else {
        let mut j = t;
        while j < end
            invariant
                t <= j <= end <= cs@.len(),
                r@ == pad + cs@.subrange(t as int, j as int),
            decreases end - j,
        {
            r.push(cs[j]);
            proof {
                assert(r@ =~= pad + cs@.subrange(t as int, j + 1));
            }
            j = j + 1;
        }
    }
    proof {
        if len >= 40 {
            assert(pad =~= Seq::<char>::empty());
            assert(r@ =~= number_key(run));
        } else {
            assert(r@ =~= number_key(run));
        }
    }
    r
}

/// The primary element of a char that is not an ASCII digit.
fn single(c: char) -> (r: Primary)
    ensures
        r.view() == single_prim(c),
{
    if is_whitespace(c) || is_control(c) {
        return Primary::Space(c as u32);
    }
    match punct_pos(c) {
        Some(p) => Primary::Punct(p),
        None => {
            if is_alphabetic(c) {
                let lower = to_lower_first(c);
                Primary::Letter(fold_accent(lower) as u32)
            } else {
                Primary::Punct(1000 + c as u32)
            }
        },
    }
}

pub fn primary_elements(s: &str, numeric: bool) -> (r: Vec<Primary>)
    ensures
        prims_view(r@) == prims_from(s@, numeric, 0),
{
    let chars = chars_vec(s);
    let ghost cs = chars@;
    let mut out: Vec<Primary> = Vec::new();
    let mut i: usize = 0;
    proof {
        assert(prims_view(out@) =~= Seq::<PrimaryView>::empty());
        assert(prims_view(out@) + prims_from(cs, numeric, 0) =~= prims_from(cs, numeric, 0));
    }
    while i < chars.len()
        invariant
            cs == chars@,
            cs == s@,
            i <= cs.len(),
            prims_view(out@) + prims_from(cs, numeric, i as int) == prims_from(cs, numeric, 0),
        decreases cs.len() - i,
    {
        let c = chars[i];
        let ghost before = prims_view(out@);
        if is_ascii_digit(c) {
            if numeric {
                let start = i;
                proof {
                    lemma_digit_run(cs, i as int);
                }
                while i < chars.len() && is_ascii_digit(chars[i])
                    invariant
                        cs == chars@,
                        start <= i <= cs.len(),
                        digit_run_end(cs, start as int) == digit_run_end(cs, i as int),
                    decreases cs.len() - i,
                {
                    i = i + 1;
                }
                proof {
                    assert(digit_run_end(cs, i as int) == i);
                }
                let key = number_key_of(&chars, start, i);
                out.push(Primary::Digits(key));
                proof {
                    assert(prims_view(out@) =~= before.push(
                        (2u8, 0u32, number_key(cs.subrange(start as int, i as int))),
                    ));
                    assert(before + prims_from(cs, numeric, start as int) =~= prims_view(out@)
                        + prims_from(cs, numeric, i as int));
                }
                continue;
            }
            let mut d: Vec<char> = Vec::new();
            d.push(c);
            out.push(Primary::Digits(d));
            proof {
                assert(prims_view(out@) =~= before.push((2u8, 0u32, seq![c])));
                assert(before + prims_from(cs, numeric, i as int) =~= prims_view(out@) + prims_from(
                    cs,
                    numeric,
                    i + 1,
                ));
            }
        } else {
            out.push(single(c));
            proof {
                assert(prims_view(out@) =~= before.push(single_prim(c)));
                assert(before + prims_from(cs, numeric, i as int) =~= prims_view(out@) + prims_from(
                    cs,
                    numeric,
                    i + 1,
                ));
            }
        }
        i = i + 1;
    }
    proof {
        assert(prims_from(cs, numeric, i as int) =~= Seq::<PrimaryView>::empty());
        assert(prims_view(out@) + Seq::<PrimaryView>::empty() =~= prims_view(out@));
    }
    out
}

/// A primary element view as `Primary::view` makes them: digits carry no
/// number, the other kinds no digits.
pub open spec fn view_wf(v: PrimaryView) -> bool {
    &&& v.0 <= 3
    &&& (v.0 == 2 ==> v.1 == 0)
    &&& (v.0 != 2 ==> v.2 == Seq::<char>::empty())
}

pub proof fn lemma_prims_view_wf(v: Seq<Primary>)
    ensures
        forall|k: int| 0 <= k < v.len() ==> view_wf(#[trigger] prims_view(v)[k]),
{
}

/// Without a difference within the shorter length, one sequence starts the other.
pub proof fn lemma_first_diff_none_all<T>(a: Seq<T>, b: Seq<T>)
    requires
        first_diff(a, b) is None,
    ensures
        forall|k: int| 0 <= k < a.len() && k < b.len() ==> a[k] == b[k],
{
    assert forall|k: int| 0 <= k < a.len() && k < b.len() implies a[k] == b[k] by {
        if a[k] != b[k] {
            lemma_first_diff_none(a, b, k);
        }
    }
}

pub proof fn lemma_first_diff_same<T>(a: Seq<T>)
    ensures
        first_diff(a, a) is None,
    decreases a.len(),
{
    if a.len() > 0 {
        lemma_first_diff_same(a.drop_first());
    }
}

pub proof fn lemma_first_diff_symmetric<T>(a: Seq<T>, b: Seq<T>)
    ensures
        first_diff(a, b) == first_diff(b, a),
    decreases a.len(),
{
    if a.len() > 0 && b.len() > 0 {
        lemma_first_diff_symmetric(a.drop_first(), b.drop_first());
    }
}

pub proof fn lemma_lower_diff_same(a: Seq<char>)
    ensures
        lower_diff(a, a) is None,
    decreases a.len(),
{
    if a.len() > 0 {
        lemma_lower_diff_same(a.drop_first());
    }
}

pub proof fn lemma_lower_diff_symmetric(a: Seq<char>, b: Seq<char>)
    ensures
        lower_diff(a, b) == lower_diff(b, a),
    decreases a.len(),
{
    if a.len() > 0 && b.len() > 0 {
        lemma_lower_diff_symmetric(a.drop_first(), b.drop_first());
    }
}

pub proof fn lemma_lower_diff_found(a: Seq<char>, b: Seq<char>)
    requires
        lower_diff(a, b) is Some,
    ensures
        ({
            let i = lower_diff(a, b).unwrap();
            &&& 0 <= i < a.len()
            &&& i < b.len()
            &&& lower_first(a[i]) != lower_first(b[i])
        }),
    decreases a.len(),
{
    if a.len() > 0 && b.len() > 0 && lower_first(a[0]) == lower_first(b[0]) {
        lemma_lower_diff_found(a.drop_first(), b.drop_first());
    }
}

/// An optional index as a number.
pub open spec fn opt_index(r: Option<usize>) -> Option<int> {
    match r {
        Some(i) => Some(i as int),
        None => None,
    }
}

/// The first index, within the shorter of the two, at which `a` and `b` differ.
pub open spec fn first_diff<T>(a: Seq<T>, b: Seq<T>) -> Option<int>
    decreases a.len(),
{
    if a.len() == 0 || b.len() == 0 {
        None
    } else if a[0] != b[0] {
        Some(0)
    } else {
        match first_diff(a.drop_first(), b.drop_first()) {
            Some(i) => Some(i + 1),
            None => None,
        }
    }
}

/// The first index, within the shorter of the two, at which the lower-case
/// forms of the chars of `a` and `b` differ.
pub open spec fn lower_diff(a: Seq<char>, b: Seq<char>) -> Option<int>
    decreases a.len(),
{
    if a.len() == 0 || b.len() == 0 {
        None
    } else if lower_first(a[0]) != lower_first(b[0]) {
        Some(0)
    } else {
        match lower_diff(a.drop_first(), b.drop_first()) {
            Some(i) => Some(i + 1),
            None => None,
        }
    }
}

proof fn lemma_first_diff_skip<T>(a: Seq<T>, b: Seq<T>, i: int)
    requires
        0 <= i <= a.len(),
        i <= b.len(),
        forall|k: int| 0 <= k < i ==> a[k] == b[k],
    ensures
        first_diff(a, b) == match first_diff(a.skip(i), b.skip(i)) {
            Some(j) => Some(j + i),
            None => None::<int>,
        },
    decreases i,
{
    if i > 0 {
        lemma_first_diff_skip(a.drop_first(), b.drop_first(), i - 1);
        assert(a.drop_first().skip(i - 1) =~= a.skip(i));
        assert(b.drop_first().skip(i - 1) =~= b.skip(i));
    } else {
        assert(a.skip(0) =~= a);
        assert(b.skip(0) =~= b);
    }
}

proof fn lemma_lower_diff_skip(a: Seq<char>, b: Seq<char>, i: int)
    requires
        0 <= i <= a.len(),
        i <= b.len(),
        forall|k: int| 0 <= k < i ==> lower_first(a[k]) == lower_first(b[k]),
    ensures
        lower_diff(a, b) == match lower_diff(a.skip(i), b.skip(i)) {
            Some(j) => Some(j + i),
            None => None::<int>,
        },
    decreases i,
{
    if i > 0 {
        lemma_lower_diff_skip(a.drop_first(), b.drop_first(), i - 1);
        assert(a.drop_first().skip(i - 1) =~= a.skip(i));
        assert(b.drop_first().skip(i - 1) =~= b.skip(i));
    } else {
        assert(a.skip(0) =~= a);
        assert(b.skip(0) =~= b);
    }
}

/// Where two char sequences first differ.
pub fn chars_first_diff(a: &Vec<char>, b: &Vec<char>) -> (r: Option<usize>)
    ensures
        opt_index(r) == first_diff(a@, b@),
        r matches Some(i) ==> i < a@.len() && i < b@.len(),
{
    let mut i: usize = 0;
    while i < a.len() && i < b.len()
        invariant
            i <= a@.len(),
            i <= b@.len(),
            forall|k: int| 0 <= k < i ==> a@[k] == b@[k],
        decreases a.len() - i,
    {
        if a[i] != b[i] {
            proof {
                lemma_first_diff_skip(a@, b@, i as int);
                assert(a@.skip(i as int)[0] == a@[i as int]);
            }
            return Some(i);
        }
        i = i + 1;
    }
    proof {
        lemma_first_diff_skip(a@, b@, i as int);
    }
    None
}

/// Where the lower-case forms of two char sequences first differ.
pub fn chars_lower_diff(a: &Vec<char>, b: &Vec<char>) -> (r: Option<usize>)
    ensures
        opt_index(r) == lower_diff(a@, b@),
        r matches Some(i) ==> i < a@.len() && i < b@.len(),
{
    let mut i: usize = 0;
    while i < a.len() && i < b.len()
        invariant
            i <= a@.len(),
            i <= b@.len(),
            forall|k: int| 0 <= k < i ==> lower_first(a@[k]) == lower_first(b@[k]),
        decreases a.len() - i,
    {
        if to_lower_first(a[i]) != to_lower_first(b[i]) {
            proof {
                lemma_lower_diff_skip(a@, b@, i as int);
                assert(a@.skip(i as int)[0] == a@[i as int]);
            }
            return Some(i);
        }
        i = i + 1;
    }
    proof {
        lemma_lower_diff_skip(a@, b@, i as int);
    }
    None
}

fn same_primary(a: &Primary, b: &Primary) -> (r: bool)
    ensures
        r == (a.view() == b.view()),
{
    match (a, b) {
        (Primary::Space(x), Primary::Space(y)) => *x == *y,
        (Primary::Punct(x), Primary::Punct(y)) => *x == *y,
        (Primary::Letter(x), Primary::Letter(y)) => *x == *y,
        (Primary::Digits(x), Primary::Digits(y)) => {
            let d = chars_first_diff(x, y);
            proof {
                if d is None && x@.len() == y@.len() {
                    assert forall|k: int| 0 <= k < x@.len() implies x@[k] == y@[k] by {
                        if x@[k] != y@[k] {
                            lemma_first_diff_none(x@, y@, k);
                        }
                    }
                    assert(x@ =~= y@);
                }
                if x@ == y@ && d is Some {
                    lemma_first_diff_found(x@, y@);
                }
            }
            d.is_none() && x.len() == y.len()
        },
        _ => false,
    }
}

pub proof fn lemma_first_diff_none<T>(a: Seq<T>, b: Seq<T>, k: int)
    requires
        0 <= k < a.len(),
        k < b.len(),
        a[k] != b[k],
    ensures
        first_diff(a, b) is Some,
    decreases k,
{
    if k > 0 && a[0] == b[0] {
        lemma_first_diff_none(a.drop_first(), b.drop_first(), k - 1);
    }
}

pub proof fn lemma_first_diff_found<T>(a: Seq<T>, b: Seq<T>)
    requires
        first_diff(a, b) is Some,
    ensures
        ({
            let i = first_diff(a, b).unwrap();
            &&& 0 <= i < a.len()
            &&& i < b.len()
            &&& a[i] != b[i]
            &&& forall|k: int| 0 <= k < i ==> a[k] == b[k]
        }),
    decreases a.len(),
{
    if a.len() > 0 && b.len() > 0 && a[0] == b[0] {
        lemma_first_diff_found(a.drop_first(), b.drop_first());
        let i = first_diff(a, b).unwrap();
        assert forall|k: int| 0 <= k < i implies a[k] == b[k] by {
            if k > 0 {
                assert(a[k] == a.drop_first()[k - 1]);
                assert(b[k] == b.drop_first()[k - 1]);
            }
        }
    }
}

/// Where two sequences of primary elements first differ.
pub fn primaries_first_diff(a: &Vec<Primary>, b: &Vec<Primary>) -> (r: Option<usize>)
    ensures
        opt_index(r) == first_diff(prims_view(a@), prims_view(b@)),
        r matches Some(i) ==> i < a@.len() && i < b@.len() && prims_view(a@)[i as int] == a@[
            i as int
        ].view() && prims_view(b@)[i as int] == b@[i as int].view(),
{
    let ghost va = prims_view(a@);
    let ghost vb = prims_view(b@);
    let mut i: usize = 0;
    while i < a.len() && i < b.len()
        invariant
            va == prims_view(a@),
            vb == prims_view(b@),
            i <= a@.len(),
            i <= b@.len(),
            forall|k: int| 0 <= k < i ==> va[k] == vb[k],
        decreases a.len() - i,
    {
        if !same_primary(&a[i], &b[i]) {
            proof {
                lemma_first_diff_skip(va, vb, i as int);
                assert(va.skip(i as int)[0] == va[i as int]);
            }
            return Some(i);
        }
        i = i + 1;
    }
    proof {
        lemma_first_diff_skip(va, vb, i as int);
    }
    None
}

} // verus!
