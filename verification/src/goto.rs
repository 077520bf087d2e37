//! The "go to line" box: `10`, `+3`, `-1`, `4:2` or `50%`, read as CodeMirror's
//! `gotoLine` reads it.
use crate::pattern::{captures, compile, regex_captures, regex_compiles, Pattern};
use crate::text::{chars_vec, push_char};
use crate::unicode::{trim, trim_spec};
use vstd::prelude::*;

verus! {

// ─── Numbers ───────────────────────────────────────────────────────────────

/// The value of a run of decimal digits.
pub open spec fn digits_value(d: Seq<char>) -> int
    decreases d.len(),
{
    if d.len() == 0 {
        0
    } else {
        digits_value(d.drop_last()) * 10 + (d.last() as int - '0' as int)
    }
}

/// At least one ASCII digit, and nothing else.
pub open spec fn all_digits(d: Seq<char>) -> bool {
    d.len() > 0 && forall|k: int| 0 <= k < d.len() ==> '0' <= #[trigger] d[k] <= '9'
}

/// What `str::parse` makes of `s` for an integer type with bounds `lo` and
/// `hi`: an optional `+` (or `-` for a signed type) and ASCII digits, the
/// value in range.
pub open spec fn parse_int_spec(s: Seq<char>, signed: bool, lo: int, hi: int) -> Option<int> {
    let signed_here = s.len() > 0 && (s[0] == '+' || (signed && s[0] == '-'));
    let neg = signed_here && s[0] == '-';
    let d = if signed_here {
        s.drop_first()
    } else {
        s
    };
    if all_digits(d) {
        let v = if neg {
            -digits_value(d)
        } else {
            digits_value(d)
        };
        if lo <= v <= hi {
            Some(v)
        } else {
            None
        }
    } else {
        None
    }
}

proof fn lemma_digits_grow(d: Seq<char>, k: int)
    requires
        0 <= k <= d.len(),
        forall|j: int| 0 <= j < d.len() ==> '0' <= #[trigger] d[j] <= '9',
    ensures
        digits_value(d.take(k)) <= digits_value(d),
        0 <= digits_value(d.take(k)),
    decreases d.len(),
{
    if k < d.len() {
        assert forall|j: int| 0 <= j < d.drop_last().len() implies '0' <= #[trigger] d.drop_last()[j] <= '9' by {
            assert(d.drop_last()[j] == d[j]);
        }
        lemma_digits_grow(d.drop_last(), k);
        assert(d.drop_last().take(k) =~= d.take(k));
        lemma_digits_grow(d.drop_last(), d.len() - 1);
        assert(d.drop_last().take(d.len() - 1) =~= d.drop_last());
    } else {
        assert(d.take(k) =~= d);
        lemma_digits_nonneg(d);
    }
}

proof fn lemma_digits_nonneg(d: Seq<char>)
    requires
        forall|j: int| 0 <= j < d.len() ==> '0' <= #[trigger] d[j] <= '9',
    ensures
        0 <= digits_value(d),
    decreases d.len(),
{
    if d.len() > 0 {
        assert forall|j: int| 0 <= j < d.drop_last().len() implies '0' <= #[trigger] d.drop_last()[j] <= '9' by {
            assert(d.drop_last()[j] == d[j]);
        }
        lemma_digits_nonneg(d.drop_last());
    }
}

/// The value of the digits `d[from..]`, when they are all digits and the
/// value stays at most `cap`.
fn digits_upto(d: &Vec<char>, from: usize, cap: u64) -> (r: Option<u64>)
    requires
        from <= d@.len(),
        cap >= 9,
    ensures
        match r {
            Some(v) => all_digits(d@.skip(from as int)) && v == digits_value(d@.skip(from as int)) && v <= cap,
            None => !all_digits(d@.skip(from as int)) || digits_value(d@.skip(from as int)) > cap,
        },
{
    let ghost s = d@.skip(from as int);
    if from == d.len() {
        return None;
    }
    let mut v: u64 = 0;
    let mut i: usize = from;
    let mut over = false;
    while i < d.len()
        invariant
            s == d@.skip(from as int),
            from < d@.len(),
            from <= i <= d@.len(),
            forall|k: int| 0 <= k < i - from ==> '0' <= #[trigger] s[k] <= '9',
            cap >= 9,
            !over ==> v == digits_value(s.take(i - from)) && v <= cap,
            over ==> digits_value(s.take(i - from)) > cap,
        decreases d@.len() - i,
    {
        let c = d[i];
        if !('0' <= c && c <= '9') {
            proof {
                assert(s[i - from] == c);
                assert(!all_digits(s));
            }
            return None;
        }
        proof {
            assert(s[i - from] == c);
            assert(s.take(i - from + 1).drop_last() =~= s.take(i - from));
            assert(s.take(i - from + 1).last() == c);
        }
        let digit: u64 = (c as u32 - 48) as u64;
        if !over {
            if v > (cap - digit) / 10 {
                over = true;
                proof {
                    assert(v * 10 + digit > cap) by (nonlinear_arith)
                        requires
                            v > (cap - digit) / 10,
                            digit <= 9,
                            digit <= cap || true,
                    ;
                }
            } else {
                proof {
                    assert(v * 10 + digit <= cap) by (nonlinear_arith)
                        requires
                            v <= (cap - digit) / 10,
                            digit <= 9,
                    ;
                }
                v = v * 10 + digit;
            }
        } else {
            proof {
                lemma_digits_nonneg(s.take(i - from));
                assert(digits_value(s.take(i - from)) * 10 + digit > cap) by (nonlinear_arith)
                    requires
                        digits_value(s.take(i - from)) > cap,
                        digit >= 0,
                ;
            }
        }
        i += 1;
    }
    proof {
        assert(s.take(i - from) =~= s);
    }
    if over {
        None
    } else {
        Some(v)
    }
}

// ─── The form ──────────────────────────────────────────────────────────────

/// A read "go to line" entry: its sign (`Some(true)` for `-`), line, column
/// and whether it is a percentage.
#[derive(Clone, Copy, Debug, PartialEq, Eq)]
pub struct GotoForm {
    pub minus: Option<bool>,
    pub line: Option<i64>,
    pub col: usize,
    pub percent: bool,
}

/// What the grammar reads as a digit: `\d`, a Unicode decimal digit, as
/// the `regex` crate matches it.
pub open spec fn decimal_digit(c: char) -> bool {
    regex_compiles(digit_pattern(), false) && regex_captures(digit_pattern(), false, seq![c]) is Some
}

/// A pattern that matches one decimal digit.
pub open spec fn digit_pattern() -> Seq<char> {
    "^\\d$"@
}

/// Where the run of digits that starts at `i` ends.
pub open spec fn digits_end(t: Seq<char>, i: int) -> int
    decreases t.len() - i,
{
    if 0 <= i < t.len() && decimal_digit(t[i]) {
        digits_end(t, i + 1)
    } else {
        i
    }
}

/// The parts of an entry by its grammar `[+-]? digits? (: digits)? %?`, the
/// whole entry matched: the sign, the line's digits, the column's digits and
/// whether it ends in `%`. Nothing when the entry does not match.
pub open spec fn goto_parts(t: Seq<char>) -> Option<(Option<char>, Option<Seq<char>>, Option<Seq<char>>, bool)> {
    let a: int = if t.len() > 0 && (t[0] == '+' || t[0] == '-') {
        1
    } else {
        0
    };
    let b = digits_end(t, a);
    let colon = b < t.len() && t[b] == ':' && digits_end(t, b + 1) > b + 1;
    let c = if colon {
        digits_end(t, b + 1)
    } else {
        b
    };
    let pct = c < t.len() && t[c] == '%';
    let d = if pct {
        c + 1
    } else {
        c
    };
    if d == t.len() {
        Some(
            (
                if a == 1 {
                    Some(t[0])
                } else {
                    None
                },
                if b > a {
                    Some(t.subrange(a, b))
                } else {
                    None
                },
                if colon {
                    Some(t.subrange(b + 1, c))
                } else {
                    None
                },
                pct,
            ),
        )
    } else {
        None
    }
}

/// The column the digits after `:` give, `0` when they do not read as a
/// number.
pub open spec fn column_of(g: Option<Seq<char>>) -> int {
    match g {
        Some(x) => match parse_int_spec(x, false, 0, usize::MAX as int) {
            Some(v) => v,
            None => 0,
        },
        None => 0,
    }
}

/// What an entry reads as: its trimmed text by the grammar of `goto_parts`,
/// the line and column read as numbers (a line that does not read as an
/// `i64` is none).
pub open spec fn goto_form_spec(input: Seq<char>) -> Option<GotoForm> {
    match goto_parts(trim_spec(input)) {
        None => None,
        Some((sign, line, col, pct)) => Some(
            GotoForm {
                minus: match sign {
                    Some(c) => Some(c == '-'),
                    None => None,
                },
                line: match line {
                    Some(x) => match parse_int_spec(x, true, i64::MIN as int, i64::MAX as int) {
                        Some(v) => Some(v as i64),
                        None => None,
                    },
                    None => None,
                },
                col: column_of(col) as usize,
                percent: pct,
            },
        ),
    }
}

fn parse_i64(s: &Vec<char>) -> (r: Option<i64>)
    ensures
        r == match parse_int_spec(s@, true, i64::MIN as int, i64::MAX as int) {
            Some(v) => Some(v as i64),
            None => None::<i64>,
        },
{
    let signed = s.len() > 0 && (s[0] == '+' || s[0] == '-');
    let neg = signed && s[0] == '-';
    let from: usize = if signed {
        1
    } else {
        0
    };
    proof {
        if signed {
            assert(s@.skip(1) =~= s@.drop_first());
        } else {
            assert(s@.skip(0) =~= s@);
        }
    }
    let cap: u64 = if neg {
        0x8000_0000_0000_0000
    } else {
        0x7fff_ffff_ffff_ffff
    };
    match digits_upto(s, from, cap) {
        None => None,
        Some(v) => if neg {
            if v == 0x8000_0000_0000_0000 {
                Some(i64::MIN)
            } else {
                Some(-(v as i64))
            }
        } else {
            Some(v as i64)
        },
    }
}

fn parse_usize(s: &Vec<char>) -> (r: Option<usize>)
    ensures
        r == match parse_int_spec(s@, false, 0, usize::MAX as int) {
            Some(v) => Some(v as usize),
            None => None::<usize>,
        },
{
    let signed = s.len() > 0 && s[0] == '+';
    let from: usize = if signed {
        1
    } else {
        0
    };
    proof {
        if signed {
            assert(s@.skip(1) =~= s@.drop_first());
        } else {
            assert(s@.skip(0) =~= s@);
        }
    }
    match digits_upto(s, from, usize::MAX as u64) {
        None => None,
        Some(v) => Some(v as usize),
    }
}

/// The chars `t[from..to]`.
fn chars_between(t: &Vec<char>, from: usize, to: usize) -> (r: Vec<char>)
    requires
        from <= to <= t@.len(),
    ensures
        r@ == t@.subrange(from as int, to as int),
{
    let mut r: Vec<char> = Vec::new();
    let mut k = from;
    while k < to
        invariant
            from <= k <= to <= t@.len(),
            r@ == t@.subrange(from as int, k as int),
        decreases to - k,
    {
        r.push(t[k]);
        proof {
            assert(t@.subrange(from as int, k + 1) =~= t@.subrange(from as int, k as int).push(t@[k as int]));
        }
        k += 1;
    }
    r
}

/// Whether `c` is a decimal digit, asked of the compiled digit pattern.
fn is_digit(re: &Option<Pattern>, c: char) -> (r: bool)
    requires
        re is Some == regex_compiles(digit_pattern(), false),
        re matches Some(p) ==> p.source() == digit_pattern() && !p.case_insensitive(),
    ensures
        r == decimal_digit(c),
{
    match re {
        Some(p) => {
            let mut one = String::new();
            push_char(&mut one, c);
            proof {
                assert(one@ =~= seq![c]);
            }
            captures(p, one.as_str()).is_some()
        },
        None => false,
    }
}

/// Where the run of digits from `i` ends.
fn skip_digits(re: &Option<Pattern>, t: &Vec<char>, i: usize) -> (r: usize)
    requires
        re is Some == regex_compiles(digit_pattern(), false),
        re matches Some(p) ==> p.source() == digit_pattern() && !p.case_insensitive(),
        i <= t@.len(),
    ensures
        r == digits_end(t@, i as int),
        i <= r <= t@.len(),
{
    let mut k = i;
    while k < t.len() && is_digit(re, t[k])
        invariant
            re is Some == regex_compiles(digit_pattern(), false),
            re matches Some(p) ==> p.source() == digit_pattern() && !p.case_insensitive(),
            i <= k <= t@.len(),
            digits_end(t@, i as int) == digits_end(t@, k as int),
        decreases t@.len() - k,
    {
        k += 1;
    }
    k
}

/// Reads a "go to line" entry.
pub fn parse_goto(input: &str) -> (r: Option<GotoForm>)
    ensures
        r == goto_form_spec(input@),
{
    let trimmed = trim(input);
    let t = chars_vec(trimmed.as_str());
    let ghost tv = t@;
    proof {
        reveal_strlit("^\\d$");
    }
    let re = compile("^\\d$", false);
    let n = t.len();
    let a: usize = if n > 0 && (t[0] == '+' || t[0] == '-') {
        1
    } else {
        0
    };
    let b = skip_digits(&re, &t, a);
    let mut c = b;
    let mut colon = false;
    if b < n && t[b] == ':' {
        let e = skip_digits(&re, &t, b + 1);
        if e > b + 1 {
            colon = true;
            c = e;
        }
    }
    let pct = c < n && t[c] == '%';
    let d = if pct {
        c + 1
    } else {
        c
    };
    if d != n {
        return None;
    }
    let minus = if a == 1 {
        Some(t[0] == '-')
    } else {
        None
    };
    let line = if b > a {
        let digits = chars_between(&t, a, b);
        parse_i64(&digits)
    } else {
        None
    };
    let col: usize = if colon {
        let digits = chars_between(&t, b + 1, c);
        match parse_usize(&digits) {
            Some(v) => v,
            None => 0,
        }
    } else {
        0
    };
    Some(GotoForm { minus, line, col, percent: pct })
}

// ─── The target ────────────────────────────────────────────────────────────

/// The line an entry sends the cursor to, `1`-based and inside the text:
/// the line given, or that many lines from the current one after a sign, or
/// (for a percentage, worked out in floating point) `percent_line`; the
/// current line without a number.
pub open spec fn goto_line_spec(f: GotoForm, doc_lines: int, current: int, percent_line: int) -> int {
    let line = match f.line {
        Some(l) => if f.percent {
            percent_line
        } else {
            match f.minus {
                Some(m) => (if m {
                    -l
                } else {
                    l as int
                }) + current,
                None => l as int,
            }
        },
        None => current,
    };
    if line < 1 {
        1
    } else if line > doc_lines {
        doc_lines
    } else {
        line
    }
}

/// Where an entry sends the cursor: the line and the column.
pub fn goto_line(f: &GotoForm, doc_lines: usize, current_line: usize, percent_line: i64) -> (r: (usize, usize))
    requires
        1 <= doc_lines <= i64::MAX,
        current_line <= i64::MAX,
        f.line is Some && !f.percent && f.minus is Some ==> f.line->0 > i64::MIN && i64::MIN <= (if f.minus->0 {
            -f.line->0
        } else {
            f.line->0 as int
        }) + current_line <= i64::MAX,
    ensures
        r == (goto_line_spec(*f, doc_lines as int, current_line as int, percent_line as int) as usize, f.col),
{
    let current = current_line as i64;
    let line: i64 = match f.line {
        Some(l) => if f.percent {
            percent_line
        } else {
            match f.minus {
                Some(m) => (if m {
                    -l
                } else {
                    l
                }) + current,
                None => l,
            }
        },
        None => current,
    };
    let last = doc_lines as i64;
    let clamped = if line < 1 {
        1
    } else if line > last {
        last
    } else {
        line
    };
    (clamped as usize, f.col)
}

} // verus!
