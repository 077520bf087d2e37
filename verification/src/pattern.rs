//! Compiled regular expressions from the `regex` crate, kept together with
//! the source and flags they were compiled from.
use crate::text::bytes_of;
use regex::{Regex, RegexBuilder};
use vstd::prelude::*;
use vstd::utf8::is_char_boundary;

verus! {

#[verifier::external_type_specification]
#[verifier::external_body]
pub struct ExRegex(Regex);

/// Whether `RegexBuilder::new(pattern).case_insensitive(ci).build()` succeeds.
pub uninterp spec fn regex_compiles(pattern: Seq<char>, case_insensitive: bool) -> bool;

/// What `Regex::find_at(haystack, start)` returns, as byte offsets, for the regex
/// compiled from `pattern` with the case-insensitive flag.
pub uninterp spec fn regex_find_at(
    pattern: Seq<char>,
    case_insensitive: bool,
    haystack: Seq<char>,
    start: int,
) -> Option<(int, int)>;

/// What `Regex::captures(haystack)` followed by `Captures::expand(replacement)`
/// gives for the regex compiled from `pattern`: `None` when there is no match.
pub uninterp spec fn regex_expand(
    pattern: Seq<char>,
    case_insensitive: bool,
    haystack: Seq<char>,
    replacement: Seq<char>,
) -> Option<Seq<char>>;

/// What `Regex::captures(haystack)` gives for the regex compiled from
/// `pattern`: `None` without a match, else the byte span of each group (the
/// whole match first), `None` for a group that took no part.
pub uninterp spec fn regex_captures(pattern: Seq<char>, case_insensitive: bool, haystack: Seq<char>) -> Option<
    Seq<Option<(int, int)>>,
>;

/// A list of group spans as pairs of integers.
pub open spec fn spans_view(v: Seq<Option<(usize, usize)>>) -> Seq<Option<(int, int)>> {
    v.map_values(
        |g: Option<(usize, usize)>|
            match g {
                Some((a, b)) => Some((a as int, b as int)),
                None => None,
            },
    )
}

/// Whether `regex_syntax::is_meta_character` holds: the chars that `regex::escape` escapes.
pub open spec fn is_meta(c: char) -> bool {
    c == '\\' || c == '.' || c == '+' || c == '*' || c == '?' || c == '(' || c == ')' || c == '|'
        || c == '[' || c == ']' || c == '{' || c == '}' || c == '^' || c == '$' || c == '#'
        || c == '&' || c == '-' || c == '~'
}

/// `regex::escape`: every meta character gets a backslash in front.
pub open spec fn escape_spec(s: Seq<char>) -> Seq<char>
    decreases s.len(),
{
    if s.len() == 0 {
        seq![]
    } else {
        (if is_meta(s[0]) {
            seq!['\\', s[0]]
        } else {
            seq![s[0]]
        }) + escape_spec(s.drop_first())
    }
}

/// A compiled regex with the pattern and flag it came from. Only [`compile`]
/// makes one, so the three always belong together.
pub struct Pattern {
    re: Regex,
    source: String,
    case_insensitive: bool,
}

impl Pattern {
    pub closed spec fn source(&self) -> Seq<char> {
        self.source@
    }

    pub closed spec fn case_insensitive(&self) -> bool {
        self.case_insensitive
    }
}

/// Escaping a text is escaping its parts one after the other.
proof fn lemma_escape_concat(a: Seq<char>, b: Seq<char>)
    ensures
        escape_spec(a + b) == escape_spec(a) + escape_spec(b),
    decreases a.len(),
{
    if a.len() == 0 {
        assert(a + b =~= b);
    } else {
        lemma_escape_concat(a.drop_first(), b);
        assert((a + b).drop_first() =~= a.drop_first() + b);
    }
}

/// `regex::escape`, whose whole behaviour `escape_spec` states: each meta
/// character gets a backslash in front.
pub fn escape(s: &str) -> (r: String)
    ensures
        r@ == escape_spec(s@),
{
    let cs = crate::text::chars_vec(s);
    let mut r = String::new();
    let mut i: usize = 0;
    proof {
        assert(cs@.take(0) =~= Seq::<char>::empty());
    }
    while i < cs.len()
        invariant
            i <= cs@.len(),
            cs@ == s@,
            r@ == escape_spec(cs@.take(i as int)),
        decreases cs@.len() - i,
    {
        let c = cs[i];
        let meta = c == '\\' || c == '.' || c == '+' || c == '*' || c == '?' || c == '(' || c == ')' || c
            == '|' || c == '[' || c == ']' || c == '{' || c == '}' || c == '^' || c == '$' || c == '#' || c
            == '&' || c == '-' || c == '~';
        if meta {
            crate::text::push_char(&mut r, '\\');
        }
        crate::text::push_char(&mut r, c);
        proof {
            lemma_escape_concat(cs@.take(i as int), seq![c]);
            assert(cs@.take(i + 1) =~= cs@.take(i as int) + seq![c]);
            assert(seq![c].drop_first() =~= Seq::<char>::empty());
            assert(escape_spec(seq![c]) == (if is_meta(c) {
                seq!['\\', c]
            } else {
                seq![c]
            }) + escape_spec(Seq::<char>::empty()));
            if meta {
                assert(seq!['\\', c] + Seq::<char>::empty() =~= seq!['\\', c]);
            } else {
                assert(seq![c] + Seq::<char>::empty() =~= seq![c]);
            }
        }
        i += 1;
    }
    proof {
        assert(cs@.take(cs@.len() as int) =~= cs@);
    }
    r
}

/// Calls `RegexBuilder::new(pattern).case_insensitive(ci).build()`. The
/// contract claims that the result is `Some` exactly when the build succeeds
/// (named `regex_compiles`), and that it carries the pattern and the flag.
#[verifier::external_body]
pub fn compile(pattern: &str, case_insensitive: bool) -> (r: Option<Pattern>)
    ensures
        r is Some == regex_compiles(pattern@, case_insensitive),
        r matches Some(p) ==> p.source() == pattern@ && p.case_insensitive() == case_insensitive,
{
    match RegexBuilder::new(pattern).case_insensitive(case_insensitive).build() {
        Ok(re) => Some(Pattern { re, source: pattern.to_string(), case_insensitive }),
        Err(_) => None,
    }
}

/// Calls `Regex::find_at`, which panics when `start` is past the end. The
/// contract names the result `regex_find_at` and claims what the `regex` docs
/// give: a match lies between `start` and the end of the haystack, and its ends
/// are char boundaries (`Match::as_str` slices the haystack by them).
#[verifier::external_body]
pub fn find_at(p: &Pattern, haystack: &str, start: usize) -> (r: Option<(usize, usize)>)
    requires
        start <= bytes_of(haystack).len(),
    ensures
        r matches Some(m) ==> regex_find_at(p.source(), p.case_insensitive(), haystack@, start as int)
            == Some((m.0 as int, m.1 as int)),
        r is None ==> regex_find_at(p.source(), p.case_insensitive(), haystack@, start as int) is None,
        r matches Some(m) ==> {
            &&& start <= m.0 <= m.1 <= bytes_of(haystack).len()
            &&& is_char_boundary(bytes_of(haystack), m.0 as int)
            &&& is_char_boundary(bytes_of(haystack), m.1 as int)
        },
{
    p.re.find_at(haystack, start).map(|m| (m.start(), m.end()))
}

/// Calls `Regex::captures` on `haystack` and, on a match, `Captures::expand`
/// with `replacement` into a new string. The result is named `regex_expand`.
#[verifier::external_body]
pub fn expand(p: &Pattern, haystack: &str, replacement: &str) -> (r: Option<String>)
    ensures
        r matches Some(s) ==> regex_expand(p.source(), p.case_insensitive(), haystack@, replacement@)
            == Some(s@),
        r is None ==> regex_expand(p.source(), p.case_insensitive(), haystack@, replacement@) is None,
{
    p.re.captures(haystack).map(
        |caps| {
            let mut out = String::new();
            caps.expand(replacement, &mut out);
            out
        },
    )
}

/// Calls `Regex::captures` on `haystack` and turns each group into its byte
/// span. The result is named `regex_captures`; the contract also claims what
/// the `regex` docs give of every group: it lies inside the haystack, between
/// char boundaries (`Match::as_str` slices the haystack by them).
#[verifier::external_body]
pub fn captures(p: &Pattern, haystack: &str) -> (r: Option<Vec<Option<(usize, usize)>>>)
    ensures
        r matches Some(v) ==> regex_captures(p.source(), p.case_insensitive(), haystack@) == Some(spans_view(v@)),
        r is None ==> regex_captures(p.source(), p.case_insensitive(), haystack@) is None,
        r matches Some(v) ==> forall|k: int|
            0 <= k < v@.len() && (#[trigger] v@[k]) is Some ==> {
                let (a, b) = v@[k]->0;
                &&& a <= b <= bytes_of(haystack).len()
                &&& is_char_boundary(bytes_of(haystack), a as int)
                &&& is_char_boundary(bytes_of(haystack), b as int)
            },
{
    p.re.captures(haystack).map(|caps| caps.iter().map(|g| g.map(|m| (m.start(), m.end()))).collect())
}

} // verus!
