//! JavaScript's `Number.prototype.toString` layout, from the shortest
//! round-trip digits of a double as Rust's `{:e}` prints them
//! (`1.2345e-7`, `3e0`).
use crate::model::{decimal, decimal_string};
use crate::seqs::{first_where, lemma_first_found, lemma_first_none};
use crate::text::{chars_vec, push_char};
use vstd::prelude::*;

verus! {

pub open spec fn is_e(c: char) -> bool {
    c == 'e'
}

/// The part of `s` before its first `e` (all of it when there is none).
pub open spec fn mantissa_of(s: Seq<char>) -> Seq<char> {
    match first_where(s, |c: char| is_e(c)) {
        Some(i) => s.take(i),
        None => s,
    }
}

/// The part of `s` after its first `e`, or "0" when there is none.
pub open spec fn exponent_text(s: Seq<char>) -> Seq<char> {
    match first_where(s, |c: char| is_e(c)) {
        Some(i) => s.skip(i + 1),
        None => seq!['0'],
    }
}

pub open spec fn is_digit(c: char) -> bool {
    '0' <= c <= '9'
}

/// Every char of `s` is an ASCII digit.
pub open spec fn all_digits(s: Seq<char>) -> bool {
    forall|i: int| 0 <= i < s.len() ==> is_digit(#[trigger] s[i])
}

/// The decimal digits of `s`, in order.
pub open spec fn digits_only(s: Seq<char>) -> Seq<char>
    decreases s.len(),
{
    if s.len() == 0 {
        Seq::empty()
    } else if is_digit(s.last()) {
        digits_only(s.drop_last()).push(s.last())
    } else {
        digits_only(s.drop_last())
    }
}

/// `s` without its trailing zeros.
pub open spec fn trim_zeros(s: Seq<char>) -> Seq<char>
    decreases s.len(),
{
    if s.len() > 0 && s.last() == '0' {
        trim_zeros(s.drop_last())
    } else {
        s
    }
}

/// The significant digits of a mantissa: its digits without trailing zeros,
/// or "0".
pub open spec fn significand(m: Seq<char>) -> Seq<char> {
    let t = trim_zeros(digits_only(m));
    if t.len() == 0 {
        seq!['0']
    } else {
        t
    }
}

/// The number an all-digit string spells.
pub open spec fn value_of(d: Seq<char>) -> nat
    decreases d.len(),
{
    if d.len() == 0 {
        0
    } else {
        value_of(d.drop_last()) * 10 + ((d.last() as int - '0' as int) as nat)
    }
}

/// `i32::from_str`: an optional sign, then one or more ASCII digits, within
/// range.
pub open spec fn parse_i32(t: Seq<char>) -> Option<int> {
    let neg = t.len() > 0 && t[0] == '-';
    let body = if t.len() > 0 && (t[0] == '-' || t[0] == '+') {
        t.drop_first()
    } else {
        t
    };
    if body.len() == 0 || !all_digits(body) {
        None
    } else {
        let v = if neg {
            -value_of(body)
        } else {
            value_of(body) as int
        };
        if -0x8000_0000 <= v <= 0x7fff_ffff {
            Some(v)
        } else {
            None
        }
    }
}

/// A prefix of a run of digits spells no more than the whole run.
proof fn lemma_value_prefix(d: Seq<char>, k: int)
    requires
        0 <= k <= d.len(),
        all_digits(d),
    ensures
        value_of(d.take(k)) <= value_of(d),
    decreases d.len(),
{
    if k < d.len() {
        assert(all_digits(d.drop_last())) by {
            assert forall|i: int| 0 <= i < d.drop_last().len() implies is_digit(#[trigger] d.drop_last()[i]) by {
                assert(d.drop_last()[i] == d[i]);
            }
        }
        lemma_value_prefix(d.drop_last(), k);
        assert(d.drop_last().take(k) =~= d.take(k));
    } else {
        assert(d.take(k) =~= d);
    }
}

/// `str::parse::<i32>`.
pub fn parse_i32_str(s: &str) -> (r: Option<i32>)
    ensures
        match parse_i32(s@) {
            Some(v) => r == Some(v as i32),
            None => r is None,
        },
{
    let t = chars_vec(s);
    let n = t.len();
    let neg = n > 0 && t[0] == '-';
    let start: usize = if n > 0 && (t[0] == '-' || t[0] == '+') {
        1
    } else {
        0
    };
    let ghost body = if start == 1 {
        t@.drop_first()
    } else {
        t@
    };
    proof {
        assert(body =~= t@.subrange(start as int, n as int));
    }
    if start >= n {
        return None;
    }
    let mut v: u64 = 0;
    let mut i: usize = start;
    proof {
        assert(body.take(0) =~= Seq::<char>::empty());
    }
    while i < n
        invariant
            t@ == s@,
            n == t@.len(),
            start <= i <= n,
            body == t@.subrange(start as int, n as int),
            body == (if s@.len() > 0 && (s@[0] == '-' || s@[0] == '+') {
                s@.drop_first()
            } else {
                s@
            }),
            body.len() > 0,
            neg == (s@.len() > 0 && s@[0] == '-'),
            forall|k: int| 0 <= k < i - start ==> is_digit(#[trigger] body[k]),
            v == value_of(body.take(i - start)),
            v <= 0x8000_0000,
        decreases n - i,
    {
        let c = t[i];
        proof {
            assert(body[i - start] == c);
        }
        if !('0' <= c && c <= '9') {
            proof {
                assert(!is_digit(body[i - start]));
            }
            return None;
        }
        let d: u64 = ((c as u32) - 48) as u64;
        let nv = v * 10 + d;
        proof {
            assert(body.take(i - start + 1).drop_last() =~= body.take(i - start));
            assert(body.take(i - start + 1).last() == c);
        }
        if nv > 0x8000_0000 {
            proof {
                if all_digits(body) {
                    lemma_value_prefix(body, i - start + 1);
                }
            }
            return None;
        }
        v = nv;
        i += 1;
    }
    proof {
        assert(body.take(i - start) =~= body);
        assert(all_digits(body));
    }
    if neg {
        let w: i64 = -(v as i64);
        Some(w as i32)
    } else if v <= 0x7fff_ffff {
        Some(v as i32)
    } else {
        None
    }
}

/// The exponent `{:e}` printed, or 0 where it does not parse.
pub open spec fn exponent_of(s: Seq<char>) -> int {
    match parse_i32(exponent_text(s)) {
        Some(v) => v,
        None => 0,
    }
}

pub open spec fn zeros(m: int) -> Seq<char> {
    Seq::new(if m > 0 {
        m as nat
    } else {
        0
    }, |i: int| '0')
}

/// `Number::toString` of `±0.d₁d₂…dₖ × 10ⁿ`: plain digits up to 21 places,
/// a leading "0." down to six zeros after the point, else exponent form.
pub open spec fn js_layout(neg: bool, d: Seq<char>, n: int) -> Seq<char> {
    let k = d.len() as int;
    let body = if k <= n && n <= 21 {
        d + zeros(n - k)
    } else if 0 < n && n <= 21 {
        d.take(n) + seq!['.'] + d.skip(n)
    } else if -6 < n && n <= 0 {
        seq!['0', '.'] + zeros(-n) + d
    } else {
        let e = n - 1;
        d.take(1) + (if k > 1 {
            seq!['.'] + d.skip(1)
        } else {
            Seq::empty()
        }) + seq!['e', if e < 0 {
            '-'
        } else {
            '+'
        }] + decimal((if e < 0 {
            -e
        } else {
            e
        }) as nat)
    };
    if neg {
        seq!['-'] + body
    } else {
        body
    }
}

/// What JavaScript prints for the double whose `{:e}` text is `s`.
pub open spec fn sci_to_js_spec(s: Seq<char>, negative: bool) -> Seq<char> {
    js_layout(negative, significand(mantissa_of(s)), exponent_of(s) + 1)
}

proof fn lemma_saturate(v: nat, d: nat, cap: nat)
    requires
        d < 10,
    ensures
        ({
            let sv = if v < cap {
                v
            } else {
                cap
            };
            let lhs = sv * 10 + d;
            (if lhs < cap {
                lhs
            } else {
                cap
            }) == (if v * 10 + d < cap {
                v * 10 + d
            } else {
                cap
            })
        }),
{
    if v >= cap {
        assert(cap * 10 + d >= cap) by (nonlinear_arith);
        assert(v * 10 + d >= cap) by (nonlinear_arith)
            requires
                v >= cap,
        ;
    }
}

/// Parses an exponent as `i32::from_str` does.
fn parse_exponent(t: &Vec<char>, from: usize) -> (r: Option<i64>)
    requires
        from <= t@.len(),
    ensures
        match r {
            Some(v) => parse_i32(t@.skip(from as int)) == Some(v as int),
            None => parse_i32(t@.skip(from as int)) is None,
        },
{
    let ghost s = t@.skip(from as int);
    proof {
        if from < t@.len() {
            assert(s[0] == t@[from as int]);
        }
    }
    let mut i = from;
    let mut neg = false;
    if i < t.len() && (t[i] == '-' || t[i] == '+') {
        neg = t[i] == '-';
        i += 1;
    }
    let ghost body = t@.skip(i as int);
    proof {
        if from < t@.len() && (t@[from as int] == '-' || t@[from as int] == '+') {
            assert(body =~= s.drop_first());
        } else {
            assert(body =~= s);
        }
    }
    if i == t.len() {
        proof {
            let pbody = if s.len() > 0 && (s[0] == '-' || s[0] == '+') {
                s.drop_first()
            } else {
                s
            };
            assert(pbody =~= body);
            assert(pbody.len() == 0);
        }
        return None;
    }
    let start = i;
    let cap: u64 = 0x1_0000_0000;
    let mut acc: u64 = 0;
    while i < t.len()
        invariant
            start <= i <= t@.len(),
            body == t@.skip(start as int),
            s == t@.skip(from as int),
            body == (if s.len() > 0 && (s[0] == '-' || s[0] == '+') {
                s.drop_first()
            } else {
                s
            }),
            neg == (s.len() > 0 && s[0] == '-'),
            start < t@.len(),
            acc == (if value_of(body.take(i - start)) < cap {
                value_of(body.take(i - start))
            } else {
                cap as nat
            }),
            cap == 0x1_0000_0000,
            forall|k: int| 0 <= k < i - start ==> is_digit(#[trigger] body[k]),
        decreases t@.len() - i,
    {
        let c = t[i];
        if !('0' <= c && c <= '9') {
            assert(!is_digit(body[i - start]));
            assert(!all_digits(body));
            return None;
        }
        let d: u64 = (c as u64) - 48;
        proof {
            assert(body.take(i - start + 1).drop_last() =~= body.take(i - start));
            assert(body.take(i - start + 1).last() == c);
            lemma_saturate(value_of(body.take(i - start)), d as nat, cap as nat);
        }
        let next = acc * 10 + d;
        acc = if next < cap {
            next
        } else {
            cap
        };
        i += 1;
    }
    proof {
        assert(body.take(i - start) =~= body);
    }
    let v: i64 = if neg {
        -(acc as i64)
    } else {
        acc as i64
    };
    if -0x8000_0000 <= v && v <= 0x7fff_ffff {
        Some(v)
    } else {
        None
    }
}

fn push_zeros(out: &mut String, m: i64)
    ensures
        final(out)@ == old(out)@ + zeros(m as int),
{
    let mut i: i64 = 0;
    while i < m
        invariant
            0 <= i,
            i <= m || m < 0,
            m < 0 ==> i == 0,
            out@ == old(out)@ + zeros(i as int),
        decreases m - i,
    {
        push_char(out, '0');
        proof {
            assert(out@ =~= old(out)@ + zeros(i + 1));
        }
        i += 1;
    }
    proof {
        if m < 0 {
            assert(zeros(m as int) =~= zeros(0));
        }
    }
}

fn push_chars(out: &mut String, d: &Vec<char>, from: usize, to: usize)
    requires
        from <= to <= d@.len(),
    ensures
        final(out)@ == old(out)@ + d@.subrange(from as int, to as int),
{
    let mut i = from;
    while i < to
        invariant
            from <= i <= to <= d@.len(),
            out@ == old(out)@ + d@.subrange(from as int, i as int),
        decreases to - i,
    {
        push_char(out, d[i]);
        proof {
            assert(out@ =~= old(out)@ + d@.subrange(from as int, i + 1));
        }
        i += 1;
    }
}

fn significant_digits(t: &Vec<char>, e: usize) -> (r: Vec<char>)
    requires
        e <= t@.len(),
    ensures
        r@ == significand(t@.take(e as int)),
        r@.len() <= e || r@.len() == 1,
{
    let ghost m = t@.take(e as int);
    let mut digits: Vec<char> = Vec::new();
    let mut i: usize = 0;
    while i < e
        invariant
            i <= e <= t@.len(),
            m == t@.take(e as int),
            digits@ == digits_only(m.take(i as int)),
            digits@.len() <= i,
        decreases e - i,
    {
        let c = t[i];
        proof {
            assert(m.take(i + 1).drop_last() =~= m.take(i as int));
            assert(m.take(i + 1).last() == c);
        }
        if '0' <= c && c <= '9' {
            digits.push(c);
        }
        i += 1;
    }
    proof {
        assert(m.take(e as int) =~= m);
    }
    while digits.len() > 0 && digits[digits.len() - 1] == '0'
        invariant
            trim_zeros(digits@) == trim_zeros(digits_only(m)),
            digits@.len() <= e,
        decreases digits@.len(),
    {
        let ghost before = digits@;
        digits.pop();
        proof {
            assert(digits@ =~= before.drop_last());
        }
    }
    if digits.len() == 0 {
        digits.push('0');
    }
    digits
}

fn layout(negative: bool, digits: &Vec<char>, n: i64) -> (r: String)
    requires
        1 <= digits@.len() <= 0x7fff_ffff,
        -0x7fff_ffff <= n <= 0x7fff_ffff,
    ensures
        r@ == js_layout(negative, digits@, n as int),
{
    let k: i64 = digits.len() as i64;
    let mut out = String::new();
    if negative {
        push_char(&mut out, '-');
    }
    if k <= n && n <= 21 {
        push_chars(&mut out, digits, 0, digits.len());
        push_zeros(&mut out, n - k);
    } else if 0 < n && n <= 21 {
        push_chars(&mut out, digits, 0, n as usize);
        push_char(&mut out, '.');
        push_chars(&mut out, digits, n as usize, digits.len());
    } else if -6 < n && n <= 0 {
        push_char(&mut out, '0');
        push_char(&mut out, '.');
        push_zeros(&mut out, -n);
        push_chars(&mut out, digits, 0, digits.len());
    } else {
        push_chars(&mut out, digits, 0, 1);
        if k > 1 {
            push_char(&mut out, '.');
            push_chars(&mut out, digits, 1, digits.len());
        }
        push_char(&mut out, 'e');
        let ex = n - 1;
        push_char(
            &mut out,
            if ex < 0 {
                '-'
            } else {
                '+'
            },
        );
        let mag: u128 = if ex < 0 {
            (-ex) as u128
        } else {
            ex as u128
        };
        let tail = decimal_string(mag);
        out.append(tail.as_str());
    }
    proof {
        let d = digits@;
        assert(d.subrange(0, d.len() as int) =~= d);
        assert(d.subrange(0, n as int) =~= d.take(n as int));
        assert(d.subrange(n as int, d.len() as int) =~= d.skip(n as int));
        assert(d.subrange(0, 1) =~= d.take(1));
        assert(d.subrange(1, d.len() as int) =~= d.skip(1));
        assert(out@ =~= js_layout(negative, digits@, n as int));
    }
    out
}

/// What JavaScript prints for a nonzero finite double, given the `{:e}`
/// text of its magnitude and its sign. The layout counts digits in `i32`,
/// so the text is taken to be shorter than 2³¹ chars, and the exponent must
/// leave room for the `+ 1` and the magnitude it prints.
pub fn sci_to_js(sci: &str, negative: bool) -> (r: String)
    requires
        -0x8000_0000 < exponent_of(sci@) < 0x7fff_ffff,
        sci@.len() <= 0x7fff_ffff,
    ensures
        r@ == sci_to_js_spec(sci@, negative),
{
    let t = chars_vec(sci);
    let ghost s = t@;
    // Split at the first 'e'.
    let mut e: usize = 0;
    while e < t.len() && t[e] != 'e'
        invariant
            e <= t@.len(),
            forall|k: int| 0 <= k < e ==> !is_e(#[trigger] t@[k]),
        decreases t@.len() - e,
    {
        e += 1;
    }
    proof {
        if e < t@.len() {
            lemma_first_found(s, |c: char| is_e(c), e as int);
        } else {
            lemma_first_none(s, |c: char| is_e(c));
            assert(s.take(e as int) =~= s);
        }
    }
    let exponent: i64 = if e < t.len() {
        match parse_exponent(&t, e + 1) {
            Some(v) => v,
            None => 0,
        }
    } else {
        0
    };
    proof {
        if e == t@.len() {
            assert(exponent_text(s) == seq!['0']);
            reveal_with_fuel(value_of, 2);
            assert(seq!['0'].drop_first() =~= Seq::<char>::empty());
            assert(parse_i32(seq!['0']) == Some(0int));
        }
    }
    assert(exponent == exponent_of(s));
    let digits = significant_digits(&t, e);
    assert(s.take(e as int) == mantissa_of(s));
    layout(negative, &digits, exponent + 1)
}

} // verus!
