//! The search query of the editor's find/replace panel (`SearchQuery` from
//! @codemirror/search): literal or regexp, case (in)sensitive, whole words.
use crate::pattern::{
    compile, escape, escape_spec, expand, find_at, regex_compiles, regex_expand, regex_find_at,
};
use crate::text::{
    byte_len, bytes_of, is_next_boundary, lemma_next_unique, next_boundary_spec, substr,
};
use std::ops::Range;
use vstd::prelude::*;
use vstd::string::StringExecFns;
use vstd::utf8::{encode_utf8, is_char_boundary};

verus! {

broadcast use {
    vstd::string::group_string_axioms,
    vstd::utf8::encode_utf8_valid_utf8,
    vstd::utf8::is_char_boundary_start_end_of_seq,
};

/// `SearchQuery` from @codemirror/search.
#[derive(Clone, Debug, Default, PartialEq)]
pub struct Query {
    pub search: String,
    pub replace: String,
    pub case_sensitive: bool,
    pub regexp: bool,
    pub whole_word: bool,
}

/// A query can search: it is not empty, and in regexp mode its pattern compiles.
pub open spec fn valid_spec(q: Query) -> bool {
    q.search@.len() > 0 && (!q.regexp || regex_compiles(q.search@, false))
}

/// `\b(?:`
pub open spec fn word_open() -> Seq<char> {
    seq!['\\', 'b', '(', '?', ':']
}

/// `)\b`
pub open spec fn word_close() -> Seq<char> {
    seq![')', '\\', 'b']
}

/// The regex a query searches with: the search text, escaped unless in regexp
/// mode, wrapped in word boundaries in whole-word mode.
pub open spec fn pattern_of(q: Query) -> Seq<char> {
    let p = if q.regexp {
        q.search@
    } else {
        escape_spec(q.search@)
    };
    if q.whole_word {
        word_open() + p + word_close()
    } else {
        p
    }
}

/// The matches found from byte `from` on: each search resumes at the end of the
/// last match, and an empty match only moves the search one char on.
pub open spec fn matches_from(p: Seq<char>, ci: bool, doc: Seq<char>, from: int) -> Seq<(int, int)>
    decreases encode_utf8(doc).len() + 1 - from,
{
    let n = encode_utf8(doc).len() as int;
    if from < 0 || from > n {
        seq![]
    } else {
        match regex_find_at(p, ci, doc, from) {
            None => seq![],
            Some(m) => if !(from <= m.0 <= m.1 <= n) {
                seq![]
            } else if m.0 == m.1 {
                let nxt = next_boundary_spec(encode_utf8(doc), m.0);
                if nxt <= m.0 || nxt > n {
                    seq![]
                } else {
                    matches_from(p, ci, doc, nxt)
                }
            } else {
                seq![m] + matches_from(p, ci, doc, m.1)
            },
        }
    }
}

/// Every match of the query in `doc`, in order.
pub open spec fn query_matches(q: Query, doc: Seq<char>) -> Seq<(int, int)> {
    if !valid_spec(q) || !regex_compiles(pattern_of(q), !q.case_sensitive) {
        seq![]
    } else {
        matches_from(pattern_of(q), !q.case_sensitive, doc, 0)
    }
}

/// Spans of `b` that are not empty, start and end on char boundaries, come in
/// order and do not overlap.
pub open spec fn spans_in(b: Seq<u8>, ms: Seq<(int, int)>) -> bool {
    &&& forall|i: int|
        0 <= i < ms.len() ==> {
            &&& 0 <= #[trigger] ms[i].0 < ms[i].1 <= b.len()
            &&& is_char_boundary(b, ms[i].0)
            &&& is_char_boundary(b, ms[i].1)
        }
    &&& forall|i: int, j: int| 0 <= i < j < ms.len() ==> #[trigger] ms[i].1 <= #[trigger] ms[j].0
}

/// A list of ranges as pairs of offsets.
pub open spec fn ranges_view(v: Seq<Range<usize>>) -> Seq<(int, int)> {
    v.map_values(|r: Range<usize>| (r.start as int, r.end as int))
}

/// The first match starting at or after `pos`.
pub open spec fn first_from(ms: Seq<(int, int)>, pos: int) -> Option<(int, int)>
    decreases ms.len(),
{
    if ms.len() == 0 {
        None
    } else if ms[0].0 >= pos {
        Some(ms[0])
    } else {
        first_from(ms.drop_first(), pos)
    }
}

/// The last match ending at or before `pos`.
pub open spec fn last_until(ms: Seq<(int, int)>, pos: int) -> Option<(int, int)>
    decreases ms.len(),
{
    if ms.len() == 0 {
        None
    } else if ms.last().1 <= pos {
        Some(ms.last())
    } else {
        last_until(ms.drop_last(), pos)
    }
}

/// First match at or after `pos`, wrapping to the first match of the document.
pub open spec fn next_spec(ms: Seq<(int, int)>, pos: int) -> Option<(int, int)> {
    match first_from(ms, pos) {
        Some(m) => Some(m),
        None => if ms.len() > 0 {
            Some(ms[0])
        } else {
            None
        },
    }
}

/// Last match before `pos`, wrapping to the last match of the document.
pub open spec fn previous_spec(ms: Seq<(int, int)>, pos: int) -> Option<(int, int)> {
    match last_until(ms, pos) {
        Some(m) => Some(m),
        None => if ms.len() > 0 {
            Some(ms.last())
        } else {
            None
        },
    }
}

/// `pos` as a range pair.
pub open spec fn range_pair(r: Option<Range<usize>>) -> Option<(int, int)> {
    match r {
        Some(r) => Some((r.start as int, r.end as int)),
        None => None,
    }
}

/// What replaces a match: the replacement text, with `$1`/`$&` expanded in regexp mode.
pub open spec fn replacement_spec(q: Query, doc_bytes: Seq<u8>, hay: Seq<char>) -> Seq<char> {
    if !q.regexp || !regex_compiles(pattern_of(q), !q.case_sensitive) {
        q.replace@
    } else {
        match regex_expand(pattern_of(q), !q.case_sensitive, hay, q.replace@) {
            Some(s) => s,
            None => q.replace@,
        }
    }
}

/// Matches are non-empty, lie inside the document from where the search
/// started, come in order and never overlap.
pub proof fn law_matches_ordered(p: Seq<char>, ci: bool, doc: Seq<char>, from: int)
    ensures
        ({
            let ms = matches_from(p, ci, doc, from);
            &&& forall|i: int|
                0 <= i < ms.len() ==> from <= #[trigger] ms[i].0 < ms[i].1 <= encode_utf8(doc).len()
            &&& forall|i: int| 0 <= i < ms.len() - 1 ==> #[trigger] ms[i].1 <= ms[i + 1].0
        }),
    decreases encode_utf8(doc).len() + 1 - from,
{
    let n = encode_utf8(doc).len() as int;
    if from < 0 || from > n {
    } else {
        match regex_find_at(p, ci, doc, from) {
            None => {},
            Some(m) => if !(from <= m.0 <= m.1 <= n) {
            } else if m.0 == m.1 {
                let nxt = next_boundary_spec(encode_utf8(doc), m.0);
                if nxt <= m.0 || nxt > n {
                } else {
                    law_matches_ordered(p, ci, doc, nxt);
                    assert(matches_from(p, ci, doc, from) == matches_from(p, ci, doc, nxt));
                }
            } else {
                law_matches_ordered(p, ci, doc, m.1);
                let rest = matches_from(p, ci, doc, m.1);
                let ms = matches_from(p, ci, doc, from);
                assert(ms == seq![m] + rest);
                assert forall|i: int| 0 <= i < ms.len() - 1 implies #[trigger] ms[i].1 <= ms[i + 1].0 by {
                    if i == 0 {
                        if rest.len() > 0 {
                            assert(ms[1] == rest[0]);
                        }
                    } else {
                        assert(ms[i] == rest[i - 1]);
                        assert(ms[i + 1] == rest[i]);
                    }
                }
                assert forall|i: int| 0 <= i < ms.len() implies from <= #[trigger] ms[i].0 < ms[i].1 <= n by {
                    if i > 0 {
                        assert(ms[i] == rest[i - 1]);
                    }
                }
            },
        }
    }
}

/// `next` finds a match whenever the document has one, and what it finds is one
/// of the matches: the first one at or after the position, else the first.
pub proof fn law_next_is_a_match(ms: Seq<(int, int)>, pos: int)
    ensures
        next_spec(ms, pos) is Some <==> ms.len() > 0,
        next_spec(ms, pos) matches Some(m) ==> ms.contains(m),
        (exists|i: int| 0 <= i < ms.len() && ms[i].0 >= pos) ==> (next_spec(ms, pos) is Some
            && next_spec(ms, pos).unwrap().0 >= pos),
    decreases ms.len(),
{
    if ms.len() > 0 {
        law_next_is_a_match(ms.drop_first(), pos);
        if ms[0].0 < pos {
            if first_from(ms.drop_first(), pos) is Some {
                let m = first_from(ms.drop_first(), pos).unwrap();
                assert(ms.drop_first().contains(m));
                let j = choose|j: int| 0 <= j < ms.drop_first().len() && ms.drop_first()[j] == m;
                assert(ms[j + 1] == m);
            }
            if exists|i: int| 0 <= i < ms.len() && ms[i].0 >= pos {
                let i = choose|i: int| 0 <= i < ms.len() && ms[i].0 >= pos;
                assert(ms.drop_first()[i - 1] == ms[i]);
            }
        } else {
            assert(ms.contains(ms[0]));
        }
    }
}

/// The byte after `pos` on which a char starts, or the end of the document.
pub open spec fn is_next_after(b: Seq<u8>, pos: int, r: int) -> bool {
    if pos >= b.len() {
        r == b.len()
    } else {
        &&& pos < r <= b.len()
        &&& is_char_boundary(b, r)
        &&& forall|k: int| pos < k < r ==> !is_char_boundary(b, k)
    }
}

pub fn next_boundary(doc: &str, pos: usize) -> (r: usize)
    ensures
        is_next_after(bytes_of(doc), pos as int, r as int),
{
    let n = byte_len(doc);
    if pos >= n {
        return n;
    }
    let mut i = pos + 1;
    while i < n && !doc.is_char_boundary(i)
        invariant
            pos < i <= n,
            n == bytes_of(doc).len(),
            is_char_boundary(bytes_of(doc), n as int),
            forall|k: int| pos < k < i ==> !is_char_boundary(bytes_of(doc), k),
        decreases n - i,
    {
        i = i + 1;
    }
    i
}

impl Query {
    pub fn is_valid(&self) -> (r: bool)
        ensures
            r == valid_spec(*self),
    {
        if self.search.as_str().is_empty() {
            return false;
        }
        if !self.regexp {
            return true;
        }
        compile(self.search.as_str(), false).is_some()
    }

    fn regex(&self) -> (r: Option<crate::pattern::Pattern>)
        ensures
            r is Some == regex_compiles(pattern_of(*self), !self.case_sensitive),
            r matches Some(p) ==> p.source() == pattern_of(*self) && p.case_insensitive()
                == !self.case_sensitive,
    {
        let pattern = if self.regexp {
            self.search.clone()
        } else {
            escape(self.search.as_str())
        };
        let pattern = if self.whole_word {
            let mut w = String::new();
            w.append("\\b(?:");
            w.append(pattern.as_str());
            w.append(")\\b");
            proof {
                reveal_strlit("\\b(?:");
                reveal_strlit(")\\b");
                assert(w@ =~= word_open() + pattern@ + word_close());
            }
            w
        } else {
            pattern
        };
        compile(pattern.as_str(), !self.case_sensitive)
    }

    /// Every match in the document, in order.
    pub fn matches(&self, doc: &str) -> (r: Vec<Range<usize>>)
        ensures
            ranges_view(r@) == query_matches(*self, doc@),
            spans_in(bytes_of(doc), ranges_view(r@)),
    {
        if !self.is_valid() {
            let v: Vec<Range<usize>> = Vec::new();
            proof {
                assert(ranges_view(v@) =~= Seq::<(int, int)>::empty());
            }
            return v;
        }
        let re = match self.regex() {
            Some(re) => re,
            None => {
                let v: Vec<Range<usize>> = Vec::new();
                proof {
                    assert(ranges_view(v@) =~= Seq::<(int, int)>::empty());
                }
                return v;
            },
        };
        let ghost p = pattern_of(*self);
        let ghost ci = !self.case_sensitive;
        let ghost b = bytes_of(doc);
        let mut out: Vec<Range<usize>> = Vec::new();
        let mut from: usize = 0;
        let n = byte_len(doc);
        proof {
            assert(ranges_view(out@) =~= Seq::<(int, int)>::empty());
            assert(ranges_view(out@) + matches_from(p, ci, doc@, 0) =~= matches_from(p, ci, doc@, 0));
        }
        loop
            invariant
                re.source() == p,
                re.case_insensitive() == ci,
                p == pattern_of(*self),
                ci == !self.case_sensitive,
                b == bytes_of(doc),
                n == b.len(),
                from <= n + 1,
                ranges_view(out@) + matches_from(p, ci, doc@, from as int) == matches_from(
                    p,
                    ci,
                    doc@,
                    0,
                ),
                spans_in(b, ranges_view(out@)),
                out@.len() > 0 ==> out@.last().end <= from,
            ensures
                ranges_view(out@) == matches_from(p, ci, doc@, 0),
                spans_in(b, ranges_view(out@)),
            decreases n + 1 - from,
        {
            if from > n {
                proof {
                    assert(matches_from(p, ci, doc@, from as int) =~= Seq::<(int, int)>::empty());
                    assert(ranges_view(out@) + Seq::<(int, int)>::empty() =~= ranges_view(out@));
                }
                break;
            }
            match find_at(&re, doc, from) {
                None => {
                    proof {
                        assert(ranges_view(out@) + Seq::<(int, int)>::empty() =~= ranges_view(out@));
                    }
                    break;
                },
                Some((s, e)) => {
                    if e == s {
                        let nb = next_boundary(doc, s);
                        proof {
                            if s < n {
                                lemma_next_unique(b, s as int, nb as int);
                            } else {
                                assert(is_next_boundary(b, s as int, nb as int));
                                lemma_next_unique(b, s as int, nb as int);
                            }
                        }
                        if nb == s {
                            proof {
                                assert(ranges_view(out@) + Seq::<(int, int)>::empty()
                                    =~= ranges_view(out@));
                            }
                            break;
                        }
                        from = nb;
                    } else {
                        let ghost before = ranges_view(out@);
                        proof {
                            if out@.len() > 0 {
                                assert(before.last() == (out@.last().start as int, out@.last().end as int));
                            }
                        }
                        out.push(s..e);
                        proof {
                            assert(ranges_view(out@) =~= before.push((s as int, e as int)));
                            let now = ranges_view(out@);
                            assert forall|i: int, j: int| 0 <= i < j < now.len() implies #[trigger] now[i].1
                                <= #[trigger] now[j].0 by {
                                if j == now.len() - 1 && i < j {
                                    if i < before.len() - 1 {
                                        assert(before[i].1 <= before[before.len() - 1].0);
                                    }
                                    assert(now[i] == before[i]);
                                }
                            }
                            assert(matches_from(p, ci, doc@, from as int) == seq![(s as int, e as int)]
                                + matches_from(p, ci, doc@, e as int));
                            assert(before + (seq![(s as int, e as int)] + matches_from(
                                p,
                                ci,
                                doc@,
                                e as int,
                            )) =~= before.push((s as int, e as int)) + matches_from(
                                p,
                                ci,
                                doc@,
                                e as int,
                            ));
                        }
                        from = e;
                    }
                },
            }
        }
        out
    }

    /// First match at or after `pos`, wrapping to the start of the document.
    pub fn next(&self, doc: &str, pos: usize) -> (r: Option<Range<usize>>)
        ensures
            range_pair(r) == next_spec(query_matches(*self, doc@), pos as int),
    {
        let all = self.matches(doc);
        let ghost ms = ranges_view(all@);
        let mut i: usize = 0;
        proof {
            assert(ms.skip(0) =~= ms);
        }
        while i < all.len()
            invariant
                ms == ranges_view(all@),
                ms == query_matches(*self, doc@),
                i <= all.len(),
                first_from(ms, pos as int) == first_from(ms.skip(i as int), pos as int),
            decreases all.len() - i,
        {
            proof {
                assert(ms.skip(i as int).drop_first() =~= ms.skip(i + 1));
            }
            if all[i].start >= pos {
                proof {
                    assert(ms.skip(i as int)[0] == ms[i as int]);
                    assert(ms[i as int] == (all@[i as int].start as int, all@[i as int].end as int));
                    assert(first_from(ms.skip(i as int), pos as int) == Some(ms[i as int]));
                }
                let r = Range { start: all[i].start, end: all[i].end };
                proof {
                    assert(range_pair(Some(r)) == Some(ms[i as int]));
                    assert(first_from(ms, pos as int) == Some(ms[i as int]));
                    assert(next_spec(ms, pos as int) == Some(ms[i as int]));
                }
                return Some(r);
            }
            proof {
                assert(ms.skip(i as int)[0] == ms[i as int]);
            }
            i = i + 1;
        }
        proof {
            assert(ms.skip(i as int) =~= Seq::<(int, int)>::empty());
        }
        if all.len() > 0 {
            Some(all[0].start..all[0].end)
        } else {
            None
        }
    }

    /// Last match before `pos`, wrapping to the end of the document.
    pub fn previous(&self, doc: &str, pos: usize) -> (r: Option<Range<usize>>)
        ensures
            range_pair(r) == previous_spec(query_matches(*self, doc@), pos as int),
    {
        let all = self.matches(doc);
        let ghost ms = ranges_view(all@);
        let mut i: usize = all.len();
        proof {
            assert(ms.take(all.len() as int) =~= ms);
        }
        while i > 0
            invariant
                ms == ranges_view(all@),
                ms == query_matches(*self, doc@),
                i <= all.len(),
                last_until(ms, pos as int) == last_until(ms.take(i as int), pos as int),
            decreases i,
        {
            proof {
                assert(ms.take(i as int).drop_last() =~= ms.take(i - 1));
            }
            if all[i - 1].end <= pos {
                proof {
                    assert(ms.take(i as int).last() == ms[i - 1]);
                    assert(last_until(ms.take(i as int), pos as int) == Some(ms[i - 1]));
                }
                let r = Range { start: all[i - 1].start, end: all[i - 1].end };
                return Some(r);
            }
            proof {
                assert(ms.take(i as int).last() == ms[i - 1]);
            }
            i = i - 1;
        }
        proof {
            assert(ms.take(0) =~= Seq::<(int, int)>::empty());
        }
        let n = all.len();
        if n > 0 {
            Some(all[n - 1].start..all[n - 1].end)
        } else {
            None
        }
    }

    /// The replacement for `range`, expanding `$1`/`$&` when in regexp mode.
    pub fn replacement(&self, doc: &str, range: &Range<usize>) -> (r: String)
        requires
            self.regexp && regex_compiles(pattern_of(*self), !self.case_sensitive) ==> {
                &&& range.start <= range.end <= bytes_of(doc).len()
                &&& is_char_boundary(bytes_of(doc), range.start as int)
                &&& is_char_boundary(bytes_of(doc), range.end as int)
            },
        ensures
            r@ == replacement_spec(
                *self,
                bytes_of(doc),
                crate::text::chars_in(bytes_of(doc), range.start as int, range.end as int),
            ),
    {
        if !self.regexp {
            return self.replace.clone();
        }
        let re = match self.regex() {
            Some(re) => re,
            None => {
                return self.replace.clone();
            },
        };
        let hay = substr(doc, range.start, range.end);
        match expand(&re, hay, self.replace.as_str()) {
            Some(s) => s,
            None => self.replace.clone(),
        }
    }
    /// The replacement for `range` where it can be made: `None` exactly when
    /// the query is a regexp that compiles and `range` is not a span of `doc`
    /// between char boundaries.
    pub fn checked_replacement(&self, doc: &str, range: &Range<usize>) -> (r: Option<String>)
        ensures
            match r {
                Some(s) => s@ == replacement_spec(
                    *self,
                    bytes_of(doc),
                    crate::text::chars_in(bytes_of(doc), range.start as int, range.end as int),
                ),
                None => self.regexp && regex_compiles(pattern_of(*self), !self.case_sensitive) && !(
                range.start <= range.end <= bytes_of(doc).len() && is_char_boundary(
                    bytes_of(doc),
                    range.start as int,
                ) && is_char_boundary(bytes_of(doc), range.end as int)),
            },
    {
        proof {
            crate::text::lemma_chars_of_bytes(doc);
        }
        if self.regexp {
            let compiled = self.regex();
            if compiled.is_some() {
                let n = crate::text::byte_len(doc);
                let fits = range.start <= range.end && range.end <= n && doc.is_char_boundary(
                    range.start,
                ) && doc.is_char_boundary(range.end);
                assert(n == bytes_of(doc).len());
                if !fits {
                    assert(regex_compiles(pattern_of(*self), !self.case_sensitive));
                    assert(!(range.start <= range.end <= bytes_of(doc).len() && is_char_boundary(
                        bytes_of(doc),
                        range.start as int,
                    ) && is_char_boundary(bytes_of(doc), range.end as int)));
                    return None;
                }
            }
        }
        Some(self.replacement(doc, range))
    }
}

} // verus!
