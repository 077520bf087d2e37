//! JavaScript semantics the app keeps for its users:
//! `localeCompare` (with and without `numeric`), `String.slice` and length in chars.
use crate::collation::{
    chars_first_diff, chars_lower_diff, first_diff, lemma_first_diff_found,
    lemma_first_diff_none_all, lemma_first_diff_same, lemma_first_diff_symmetric, lemma_lower_diff_found,
    lemma_lower_diff_same, lemma_lower_diff_symmetric, lemma_prims_view_wf, lower_diff, primaries_first_diff,
    primary_elements, prims_from, prims_view, view_wf, Primary, PrimaryView, char_rank, lemma_first_prim_rank,
};
use crate::text::{byte_len, chars_vec, lemma_same_prefix_same_bytes, prefix_chars, take_chars};
use crate::unicode::{is_lowercase, lower_first, lowercase, to_lower_first};
use std::cmp::Ordering;
use vstd::prelude::*;
use vstd::utf8::encode_utf8;

verus! {

/// Three-way comparison of two lengths.
pub open spec fn cmp_nat(a: nat, b: nat) -> Ordering {
    if a < b {
        Ordering::Less
    } else if a > b {
        Ordering::Greater
    } else {
        Ordering::Equal
    }
}

/// Three-way comparison of two numbers.
pub open spec fn cmp_u32_spec(a: u32, b: u32) -> Ordering {
    if a < b {
        Ordering::Less
    } else if a > b {
        Ordering::Greater
    } else {
        Ordering::Equal
    }
}

/// Three-way comparison of two kind ranks.
pub open spec fn cmp_u8_spec(a: u8, b: u8) -> Ordering {
    if a < b {
        Ordering::Less
    } else if a > b {
        Ordering::Greater
    } else {
        Ordering::Equal
    }
}

/// Three-way comparison of two chars by code point.
pub open spec fn cmp_char(a: char, b: char) -> Ordering {
    if a < b {
        Ordering::Less
    } else if a > b {
        Ordering::Greater
    } else {
        Ordering::Equal
    }
}

/// Lexicographic comparison of char sequences, a proper prefix first.
pub open spec fn cmp_chars(a: Seq<char>, b: Seq<char>) -> Ordering {
    match first_diff(a, b) {
        Some(i) => cmp_char(a[i], b[i]),
        None => cmp_nat(a.len(), b.len()),
    }
}

/// Order of two primary elements: by kind, then digits lexicographically or the number.
pub open spec fn cmp_prim(a: PrimaryView, b: PrimaryView) -> Ordering {
    if a.0 != b.0 {
        cmp_u8_spec(a.0, b.0)
    } else if a.0 == 2 {
        cmp_chars(a.2, b.2)
    } else {
        cmp_u32_spec(a.1, b.1)
    }
}

/// Lexicographic order of primary element sequences, a proper prefix first.
pub open spec fn cmp_prims(a: Seq<PrimaryView>, b: Seq<PrimaryView>) -> Ordering {
    match first_diff(a, b) {
        Some(i) => cmp_prim(a[i], b[i]),
        None => cmp_nat(a.len(), b.len()),
    }
}

/// Secondary level: the first pair of chars (over the shorter length) whose
/// lower-case forms differ decides.
pub open spec fn secondary(a: Seq<char>, b: Seq<char>) -> Option<Ordering> {
    match lower_diff(a, b) {
        Some(i) => Some(cmp_char(lower_first(a[i]), lower_first(b[i]))),
        None => None,
    }
}

/// Tertiary level: the first pair of different chars decides, lower case first.
pub open spec fn tertiary(a: Seq<char>, b: Seq<char>) -> Option<Ordering> {
    match first_diff(a, b) {
        Some(i) => Some(
            if lowercase(a[i]) != lowercase(b[i]) {
                if lowercase(a[i]) {
                    Ordering::Less
                } else {
                    Ordering::Greater
                }
            } else {
                cmp_char(a[i], b[i])
            },
        ),
        None => None,
    }
}

/// The collation order: primary elements, then accents (lower-case forms),
/// then case, then length in bytes.
pub open spec fn collate_spec(a: Seq<char>, b: Seq<char>, numeric: bool) -> Ordering {
    let p = cmp_prims(prims_from(a, numeric, 0), prims_from(b, numeric, 0));
    if p != Ordering::Equal {
        p
    } else {
        match secondary(a, b) {
            Some(o) => o,
            None => match tertiary(a, b) {
                Some(o) => o,
                None => cmp_nat(encode_utf8(a).len(), encode_utf8(b).len()),
            },
        }
    }
}

/// Char sequences compare equal exactly when they are the same.
pub proof fn lemma_cmp_chars_equal(a: Seq<char>, b: Seq<char>)
    ensures
        (cmp_chars(a, b) == Ordering::Equal) == (a == b),
{
    match first_diff(a, b) {
        Some(i) => {
            lemma_first_diff_found(a, b);
        },
        None => {
            lemma_first_diff_none_all(a, b);
            if a.len() == b.len() {
                assert(a =~= b);
            }
        },
    }
}

/// Primary elements compare equal exactly when they are the same.
pub proof fn lemma_cmp_prim_equal(a: PrimaryView, b: PrimaryView)
    requires
        view_wf(a),
        view_wf(b),
    ensures
        (cmp_prim(a, b) == Ordering::Equal) == (a == b),
{
    lemma_cmp_chars_equal(a.2, b.2);
}

/// The first differing primary element decides.
proof fn lemma_prims_decide(a: Seq<PrimaryView>, b: Seq<PrimaryView>)
    requires
        forall|k: int| 0 <= k < a.len() ==> view_wf(#[trigger] a[k]),
        forall|k: int| 0 <= k < b.len() ==> view_wf(#[trigger] b[k]),
    ensures
        first_diff(a, b) is Some ==> cmp_prims(a, b) != Ordering::Equal,
{
    if first_diff(a, b) is Some {
        lemma_first_diff_found(a, b);
        let i = first_diff(a, b).unwrap();
        lemma_cmp_prim_equal(a[i], b[i]);
    }
}

/// Two strings collate as equal exactly when they are the same string.
pub proof fn law_collate_equal_iff_same(a: Seq<char>, b: Seq<char>, numeric: bool)
    ensures
        (collate_spec(a, b, numeric) == Ordering::Equal) == (a == b),
{
    if a == b {
        lemma_first_diff_same(prims_from(a, numeric, 0));
        lemma_lower_diff_same(a);
        lemma_first_diff_same(a);
    } else if collate_spec(a, b, numeric) == Ordering::Equal {
        lemma_lower_diff_symmetric(a, b);
        if lower_diff(a, b) is Some {
            lemma_lower_diff_found(a, b);
        }
        if first_diff(a, b) is Some {
            lemma_first_diff_found(a, b);
        }
        assert(first_diff(a, b) is None);
        lemma_first_diff_none_all(a, b);
        lemma_same_prefix_same_bytes(a, b);
    }
}

/// A string sorts before another whose first char is of a later kind,
/// whatever follows and with or without `numeric`: white space and control
/// chars, then punctuation and symbols, then digits, then letters.
pub proof fn law_kinds_in_order(a: Seq<char>, b: Seq<char>, numeric: bool)
    requires
        a.len() > 0,
        b.len() > 0,
        char_rank(a[0]) < char_rank(b[0]),
    ensures
        collate_spec(a, b, numeric) == Ordering::Less,
        collate_spec(b, a, numeric) == Ordering::Greater,
{
    lemma_first_prim_rank(a, numeric);
    lemma_first_prim_rank(b, numeric);
    let pa = prims_from(a, numeric, 0);
    let pb = prims_from(b, numeric, 0);
    assert(first_diff(pa, pb) == Some(0int));
    assert(first_diff(pb, pa) == Some(0int));
}

/// The opposite order.
pub open spec fn reverse(o: Ordering) -> Ordering {
    match o {
        Ordering::Less => Ordering::Greater,
        Ordering::Equal => Ordering::Equal,
        Ordering::Greater => Ordering::Less,
    }
}

proof fn lemma_cmp_chars_antisym(a: Seq<char>, b: Seq<char>)
    ensures
        cmp_chars(b, a) == reverse(cmp_chars(a, b)),
{
    lemma_first_diff_symmetric(a, b);
}

proof fn lemma_cmp_prims_antisym(a: Seq<PrimaryView>, b: Seq<PrimaryView>)
    ensures
        cmp_prims(b, a) == reverse(cmp_prims(a, b)),
{
    lemma_first_diff_symmetric(a, b);
    if first_diff(a, b) is Some {
        lemma_first_diff_found(a, b);
        let i = first_diff(a, b).unwrap();
        lemma_cmp_chars_antisym(a[i].2, b[i].2);
    }
}

/// Swapping the two strings reverses their order.
pub proof fn law_collate_antisymmetric(a: Seq<char>, b: Seq<char>, numeric: bool)
    ensures
        collate_spec(b, a, numeric) == reverse(collate_spec(a, b, numeric)),
{
    lemma_cmp_prims_antisym(prims_from(a, numeric, 0), prims_from(b, numeric, 0));
    lemma_lower_diff_symmetric(a, b);
    lemma_first_diff_symmetric(a, b);
}

fn cmp_u32(a: u32, b: u32) -> (r: Ordering)
    ensures
        r == cmp_u32_spec(a, b),
{
    if a < b {
        Ordering::Less
    } else if a > b {
        Ordering::Greater
    } else {
        Ordering::Equal
    }
}

fn cmp_ch(a: char, b: char) -> (r: Ordering)
    ensures
        r == cmp_char(a, b),
{
    if a < b {
        Ordering::Less
    } else if a > b {
        Ordering::Greater
    } else {
        Ordering::Equal
    }
}

fn cmp_len(a: usize, b: usize) -> (r: Ordering)
    ensures
        r == (if a < b {
            Ordering::Less
        } else if a > b {
            Ordering::Greater
        } else {
            Ordering::Equal
        }),
{
    if a < b {
        Ordering::Less
    } else if a > b {
        Ordering::Greater
    } else {
        Ordering::Equal
    }
}

fn cmp_digits(a: &Vec<char>, b: &Vec<char>) -> (r: Ordering)
    ensures
        r == cmp_chars(a@, b@),
{
    match chars_first_diff(a, b) {
        Some(i) => cmp_ch(a[i], b[i]),
        None => cmp_len(a.len(), b.len()),
    }
}

fn rank(p: &Primary) -> (r: u8)
    ensures
        r == p.view().0,
{
    match p {
        Primary::Space(_) => 0,
        Primary::Punct(_) => 1,
        Primary::Digits(_) => 2,
        Primary::Letter(_) => 3,
    }
}

fn cmp_primary(a: &Primary, b: &Primary) -> (r: Ordering)
    ensures
        r == cmp_prim(a.view(), b.view()),
{
    match (a, b) {
        (Primary::Space(x), Primary::Space(y)) => cmp_u32(*x, *y),
        (Primary::Punct(x), Primary::Punct(y)) => cmp_u32(*x, *y),
        (Primary::Letter(x), Primary::Letter(y)) => cmp_u32(*x, *y),
        (Primary::Digits(x), Primary::Digits(y)) => cmp_digits(x, y),
        _ => {
            let ra = rank(a);
            let rb = rank(b);
            if ra < rb {
                Ordering::Less
            } else {
                Ordering::Greater
            }
        },
    }
}

/// Approximates ICU root collation (what `String.prototype.localeCompare` uses
/// in WebKit) for the characters found in identifiers and query results:
/// whitespace < punctuation/symbols < digits < letters, case-insensitive at the
/// primary level with lowercase sorting first on ties.
pub fn locale_compare(a: &str, b: &str) -> (r: Ordering)
    ensures
        r == collate_spec(a@, b@, false),
{
    collate(a, b, false)
}

/// `localeCompare(b, undefined, { numeric: true })`.
pub fn locale_compare_numeric(a: &str, b: &str) -> (r: Ordering)
    ensures
        r == collate_spec(a@, b@, true),
{
    collate(a, b, true)
}

fn collate(a: &str, b: &str, numeric: bool) -> (r: Ordering)
    ensures
        r == collate_spec(a@, b@, numeric),
{
    let pa = primary_elements(a, numeric);
    let pb = primary_elements(b, numeric);
    proof {
        lemma_prims_view_wf(pa@);
        lemma_prims_view_wf(pb@);
        lemma_prims_decide(prims_view(pa@), prims_view(pb@));
    }
    match primaries_first_diff(&pa, &pb) {
        Some(i) => {
            return cmp_primary(&pa[i], &pb[i]);
        },
        None => {
            if pa.len() != pb.len() {
                return cmp_len(pa.len(), pb.len());
            }
        },
    }
    let ca = chars_vec(a);
    let cb = chars_vec(b);
    match chars_lower_diff(&ca, &cb) {
        Some(i) => {
            return cmp_ch(to_lower_first(ca[i]), to_lower_first(cb[i]));
        },
        None => {},
    }
    match chars_first_diff(&ca, &cb) {
        Some(i) => {
            let x = ca[i];
            let y = cb[i];
            let a_lower = is_lowercase(x);
            let b_lower = is_lowercase(y);
            if a_lower != b_lower {
                return if a_lower {
                    Ordering::Less
                } else {
                    Ordering::Greater
                };
            }
            return cmp_ch(x, y);
        },
        None => {},
    }
    cmp_len(byte_len(a), byte_len(b))
}

/// The first `max` chars of `s`, the way `String.slice(0, max)` cuts the BMP text we display.
pub fn slice_chars(s: &str, max: usize) -> (r: &str)
    ensures
        r@ == prefix_chars(s@, max),
{
    take_chars(s, max)
}

pub fn char_len(s: &str) -> (r: usize)
    ensures
        r == s@.len(),
{
    chars_vec(s).len()
}

} // verus!
