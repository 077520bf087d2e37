//! Finding and replacing from the find panel: the next or previous match,
//! replacing the next match or every match at once.
use crate::buffer::editing::{sel_end, sel_start};
use crate::buffer::typing::edited_text;
use crate::buffer::{capped_push, Buffer, EditKind, RedoStep, Selection, UndoStep};
use crate::search::{next_spec, previous_spec, query_matches, ranges_view, replacement_spec, spans_in, Query};
use crate::text::{byte_len, chars_in, lemma_boundary_concat_back, lemma_boundary_prefix, lemma_valid_rest, utf8};
use std::ops::Range;
use vstd::prelude::*;
use vstd::string::StringExecFns;
use vstd::utf8::*;

verus! {

broadcast use {
    vstd::string::group_string_axioms,
    vstd::utf8::encode_utf8_decode_utf8,
};

/// What "replace" did.
#[derive(Clone, Copy, Debug, PartialEq, Eq, Structural)]
pub enum Replaced {
    /// No match anywhere: nothing changed.
    Nothing,
    /// The selection was not a match: the next match is selected instead.
    Selected,
    /// The selected match was replaced.
    Replaced,
}

/// The text of a document held as bytes.
pub open spec fn text_of(b: Seq<u8>) -> Seq<char> {
    decode_utf8(b)
}

fn copy_text(buf: &Buffer) -> (r: String)
    requires
        buf.wf(),
    ensures
        encode_utf8(r@) == buf.bytes(),
        r@ == text_of(buf.bytes()),
{
    let mut r = String::new();
    r.append(buf.text());
    r
}

/// Replaces the selection when it is a match, then selects the next match
/// after the replacement; when the selection is not a match, selects the
/// next match from its start instead. Nothing changes when nothing matches,
/// or when the replaced text would not fit in memory.
pub fn replace_next(buf: &mut Buffer, query: &Query) -> (r: Replaced)
    requires
        old(buf).wf(),
        old(buf).sel().anchor <= old(buf).bytes().len(),
        old(buf).sel().head <= old(buf).bytes().len(),
        is_char_boundary(old(buf).bytes(), old(buf).sel().anchor as int),
        is_char_boundary(old(buf).bytes(), old(buf).sel().head as int),
    ensures
        ({
            let b = old(buf).bytes();
            let lo = sel_start(old(buf).sel()) as int;
            let hi = sel_end(old(buf).sel()) as int;
            let ms = query_matches(*query, text_of(b));
            let repl = utf8(replacement_spec(*query, b, chars_in(b, lo, hi)));
            if !ms.contains((lo, hi)) {
                match next_spec(ms, lo) {
                    None => r == Replaced::Nothing && *final(buf) == *old(buf),
                    Some(t) => {
                        &&& r == Replaced::Selected
                        &&& final(buf).wf()
                        &&& final(buf).bytes() == b
                        &&& final(buf).goal() == old(buf).goal()
                        &&& final(buf).undo_view() == old(buf).undo_view()
                        &&& final(buf).redo_view() == old(buf).redo_view()
                        &&& final(buf).sel() == (Selection { anchor: t.0 as usize, head: t.1 as usize })
                    },
                }
            } else if b.len() + repl.len() > usize::MAX {
                r == Replaced::Nothing && *final(buf) == *old(buf)
            } else {
                let after = lo + repl.len();
                &&& r == Replaced::Replaced
                &&& edited_text(*old(buf), *final(buf), lo, hi, repl, EditKind::Other)
                &&& match next_spec(query_matches(*query, text_of(final(buf).bytes())), after) {
                    Some(n) => final(buf).sel() == (Selection { anchor: n.0 as usize, head: n.1 as usize }),
                    None => final(buf).sel() == (Selection { anchor: after as usize, head: after as usize }),
                }
            }
        }),
{
    proof {
        old(buf).lemma_wf();
    }
    let ghost b = buf.bytes();
    let doc = copy_text(buf);
    let range = buf.selection().range();
    let lo = range.start;
    let hi = range.end;
    let ms = query.matches(doc.as_str());
    let ghost mv = ranges_view(ms@);
    let mut is_match = false;
    let mut k: usize = 0;
    while k < ms.len() && !is_match
        invariant
            mv == ranges_view(ms@),
            k <= ms@.len(),
            is_match ==> mv.contains((lo as int, hi as int)),
            !is_match ==> forall|j: int| 0 <= j < k ==> mv[j] != (lo as int, hi as int),
        decreases ms@.len() - k + if is_match {
            0int
        } else {
            1
        },
    {
        if ms[k].start == lo && ms[k].end == hi {
            is_match = true;
            proof {
                assert(mv[k as int] == (lo as int, hi as int));
            }
        } else {
            k += 1;
        }
    }
    if !is_match {
        proof {
            assert(!mv.contains((lo as int, hi as int)));
        }
        match query.next(doc.as_str(), lo) {
            None => {
                return Replaced::Nothing;
            },
            Some(t) => {
                buf.selection = Selection { anchor: t.start, head: t.end };
                return Replaced::Selected;
            },
        }
    }
    let text = query.replacement(doc.as_str(), &(lo..hi));
    let tl = byte_len(text.as_str());
    let n = buf.len();
    if n > usize::MAX - tl {
        return Replaced::Nothing;
    }
    proof {
        crate::buffer::typing::lemma_clamp_boundary(b, lo as int);
        crate::buffer::typing::lemma_clamp_boundary(b, hi as int);
    }
    buf.edit(lo..hi, text.as_str(), EditKind::Other);
    let after = lo + tl;
    let doc2 = copy_text(buf);
    match query.next(doc2.as_str(), after) {
        Some(nx) => {
            buf.selection = Selection { anchor: nx.start, head: nx.end };
        },
        None => {},
    }
    Replaced::Replaced
}

/// The bytes that replace each match, all worked out on the document as it
/// was before the first change.
pub open spec fn replacements(q: Query, b: Seq<u8>, ms: Seq<(int, int)>) -> Seq<Seq<u8>> {
    ms.map_values(|m: (int, int)| utf8(replacement_spec(q, b, chars_in(b, m.0, m.1))))
}

/// The combined length of a list of byte strings.
pub open spec fn total_len(rs: Seq<Seq<u8>>) -> nat
    decreases rs.len(),
{
    if rs.len() == 0 {
        0
    } else {
        total_len(rs.drop_last()) + rs.last().len()
    }
}

/// Bytes, selection and undo history once the matches from `k` on have been
/// replaced, the last match first, each replacement its own undo step with
/// the cursor left after the new text.
pub open spec fn replaced_from(
    b: Seq<u8>,
    sel: Selection,
    undo: Seq<UndoStep>,
    ms: Seq<(int, int)>,
    rs: Seq<Seq<u8>>,
    k: int,
) -> (Seq<u8>, Selection, Seq<UndoStep>)
    decreases ms.len() - k,
{
    if k < 0 || k >= ms.len() {
        (b, sel, undo)
    } else {
        let prev = replaced_from(b, sel, undo, ms, rs, k + 1);
        let t = prev.0;
        let m = ms[k];
        let at = (m.0 + rs[k].len()) as usize;
        (
            t.subrange(0, m.0) + rs[k] + t.subrange(m.1, t.len() as int),
            Selection { anchor: at, head: at },
            capped_push(prev.2, (t, prev.1, EditKind::Other)),
        )
    }
}

/// A boundary shared by two valid byte strings that agree up to `lim`, itself
/// a boundary of both, is a boundary of both.
proof fn lemma_boundary_shared(x: Seq<u8>, y: Seq<u8>, lim: int, p: int)
    requires
        valid_utf8(x),
        valid_utf8(y),
        0 <= p <= lim <= x.len(),
        lim <= y.len(),
        x.subrange(0, lim) == y.subrange(0, lim),
        is_char_boundary(x, lim),
        is_char_boundary(y, lim),
        is_char_boundary(x, p),
    ensures
        is_char_boundary(y, p),
{
    lemma_boundary_prefix(x, lim, p);
    lemma_boundary_prefix(y, lim, p);
}

/// Replaces every match, last first so that the earlier offsets stay valid;
/// each replacement is worked out on the document as it was and becomes an
/// undo step of its own. Returns whether anything changed: nothing does when
/// nothing matches, or when the document and all the replacements together
/// would not fit in memory.
#[verifier::rlimit(40)]
pub fn replace_all(buf: &mut Buffer, query: &Query) -> (r: bool)
    requires
        old(buf).wf(),
    ensures
        ({
            let b = old(buf).bytes();
            let ms = query_matches(*query, text_of(b));
            let rs = replacements(*query, b, ms);
            if ms.len() == 0 || b.len() + total_len(rs) > usize::MAX {
                !r && *final(buf) == *old(buf)
            } else {
                let st = replaced_from(b, old(buf).sel(), old(buf).undo_view(), ms, rs, 0);
                &&& r
                &&& final(buf).wf()
                &&& final(buf).bytes() == st.0
                &&& final(buf).sel() == st.1
                &&& final(buf).undo_view() == st.2
                &&& final(buf).redo_view() == Seq::<RedoStep>::empty()
                &&& final(buf).goal() is None
            }
        }),
{
    proof {
        old(buf).lemma_wf();
    }
    let ghost b = buf.bytes();
    let ghost sel0 = buf.sel();
    let ghost undo0 = buf.undo_view();
    let doc = copy_text(buf);
    let ms = query.matches(doc.as_str());
    let ghost mv = ranges_view(ms@);
    let ghost rs = replacements(*query, b, mv);
    if ms.len() == 0 {
        return false;
    }
    let n = buf.len();
    let mut total: usize = n;
    let mut reps: Vec<String> = Vec::new();
    let mut i: usize = 0;
    while i < ms.len()
        invariant
            mv == ranges_view(ms@),
            mv == query_matches(*query, text_of(b)),
            spans_in(b, mv),
            rs == replacements(*query, b, mv),
            b == encode_utf8(doc@),
            b == old(buf).bytes(),
            *buf == *old(buf),
            n == b.len(),
            i <= ms@.len(),
            reps@.len() == i,
            forall|j: int| 0 <= j < i ==> utf8(#[trigger] reps@[j]@) == rs[j],
            total == n + total_len(rs.take(i as int)),
        decreases ms@.len() - i,
    {
        proof {
            assert(mv[i as int] == (ms@[i as int].start as int, ms@[i as int].end as int));
        }
        let t = query.replacement(doc.as_str(), &ms[i]);
        let tl = byte_len(t.as_str());
        proof {
            assert(rs.take(i + 1).drop_last() =~= rs.take(i as int));
            assert(rs.take(i + 1).last() == rs[i as int]);
            assert(rs[i as int] == utf8(t@));
            assert(total_len(rs.take(i + 1)) == total_len(rs.take(i as int)) + tl);
        }
        if total > usize::MAX - tl {
            proof {
                lemma_total_len_prefix(rs, i + 1);
                assert(n + total_len(rs.take(i + 1)) > usize::MAX);
                assert(b.len() + total_len(rs) > usize::MAX);
            }
            return false;
        }
        total = total + tl;
        reps.push(t);
        i = i + 1;
    }
    proof {
        assert(rs.take(ms@.len() as int) =~= rs);
    }
    let mut k: usize = ms.len();
    proof {
        assert(buf.bytes().subrange(0, b.len() as int) == b.subrange(0, b.len() as int));
    }
    while k > 0
        invariant
            mv == ranges_view(ms@),
            spans_in(b, mv),
            valid_utf8(b),
            rs == replacements(*query, b, mv),
            reps@.len() == ms@.len(),
            forall|j: int| 0 <= j < ms@.len() ==> utf8(#[trigger] reps@[j]@) == rs[j],
            b.len() + total_len(rs) <= usize::MAX,
            k <= ms@.len(),
            ms@.len() > 0,
            b == old(buf).bytes(),
            sel0 == old(buf).sel(),
            undo0 == old(buf).undo_view(),
            mv == query_matches(*query, text_of(b)),
            buf.wf(),
            ({
                let st = replaced_from(b, sel0, undo0, mv, rs, k as int);
                &&& buf.bytes() == st.0
                &&& buf.sel() == st.1
                &&& buf.undo_view() == st.2
            }),
            k < ms@.len() ==> buf.redo_view() == Seq::<RedoStep>::empty() && buf.goal() is None,
            ({
                let lim = if k < ms@.len() {
                    mv[k as int].0
                } else {
                    b.len() as int
                };
                &&& lim <= buf.bytes().len()
                &&& lim <= b.len()
                &&& buf.bytes().subrange(0, lim) == b.subrange(0, lim)
                &&& is_char_boundary(buf.bytes(), lim)
                &&& is_char_boundary(b, lim)
            }),
            buf.bytes().len() + total_len(rs.take(k as int)) <= b.len() + total_len(rs),
        decreases k,
    {
        let j = k - 1;
        let ghost cur = buf.bytes();
        let ghost lim = if k < ms@.len() {
            mv[k as int].0
        } else {
            b.len() as int
        };
        proof {
            buf.lemma_wf();
            let m = mv[j as int];
            assert(m == (ms@[j as int].start as int, ms@[j as int].end as int));
            if k < ms@.len() {
                assert(mv[j as int].1 <= mv[k as int].0);
            }
            lemma_boundary_shared(b, cur, lim, m.0);
            lemma_boundary_shared(b, cur, lim, m.1);
            crate::buffer::typing::lemma_clamp_boundary(cur, m.0);
            crate::buffer::typing::lemma_clamp_boundary(cur, m.1);
            assert(rs.take(k as int).drop_last() =~= rs.take(j as int));
            assert(rs.take(k as int).last() == rs[j as int]);
            lemma_total_len_prefix(rs, j as int);
        }
        let s = ms[j].start;
        let e = ms[j].end;
        buf.edit(s..e, reps[j].as_str(), EditKind::Other);
        proof {
            buf.lemma_wf();
            let now = buf.bytes();
            let pre = cur.subrange(0, s as int);
            let rest = reps@[j as int]@;
            assert(utf8(rest) == rs[j as int]);
            lemma_boundary_prefix(cur, s as int, s as int);
            assert(now =~= pre + (rs[j as int] + cur.subrange(e as int, cur.len() as int)));
            lemma_valid_rest(pre, rs[j as int] + cur.subrange(e as int, cur.len() as int));
            lemma_boundary_concat_back(pre, rs[j as int] + cur.subrange(e as int, cur.len() as int));
            assert(now.subrange(0, s as int) =~= pre);
            assert(pre =~= b.subrange(0, s as int)) by {
                assert(cur.subrange(0, lim).subrange(0, s as int) =~= pre);
                assert(b.subrange(0, lim).subrange(0, s as int) =~= b.subrange(0, s as int));
            }
            assert(is_char_boundary(b, s as int));
        }
        k = j;
    }
    true
}

/// A prefix of a list is no longer than the whole.
proof fn lemma_total_len_prefix(rs: Seq<Seq<u8>>, k: int)
    requires
        0 <= k <= rs.len(),
    ensures
        total_len(rs.take(k)) <= total_len(rs),
    decreases rs.len() - k,
{
    if k < rs.len() {
        lemma_total_len_prefix(rs, k + 1);
        assert(rs.take(k + 1).drop_last() =~= rs.take(k));
    } else {
        assert(rs.take(k) =~= rs);
    }
}

/// Selects the first match after the start of the selection, wrapping to the
/// first match of the document. Says whether there was one.
pub fn find_next(buf: &mut Buffer, query: &Query) -> (found: bool)
    requires
        old(buf).wf(),
        sel_start(old(buf).sel()) < usize::MAX,
    ensures
        ({
            let b = old(buf).bytes();
            let from = sel_start(old(buf).sel()) + 1;
            let at = if from < b.len() {
                from
            } else {
                b.len() as int
            };
            match next_spec(query_matches(*query, text_of(b)), at) {
                Some(m) => found && *final(buf) == old(buf).with_selection(
                    Selection { anchor: m.0 as usize, head: m.1 as usize },
                ),
                None => !found && *final(buf) == *old(buf),
            }
        }),
{
    proof {
        old(buf).lemma_wf();
    }
    let from = buf.selection().range().start + 1;
    let doc = copy_text(buf);
    let n = buf.len();
    let at = if from < n {
        from
    } else {
        n
    };
    match query.next(doc.as_str(), at) {
        Some(m) => {
            buf.set_selection(Selection { anchor: m.start, head: m.end });
            true
        },
        None => false,
    }
}

/// Selects the last match that ends before the start of the selection,
/// wrapping to the last match of the document. Says whether there was one.
pub fn find_previous(buf: &mut Buffer, query: &Query) -> (found: bool)
    requires
        old(buf).wf(),
    ensures
        ({
            let b = old(buf).bytes();
            match previous_spec(query_matches(*query, text_of(b)), sel_start(old(buf).sel()) as int) {
                Some(m) => found && *final(buf) == old(buf).with_selection(
                    Selection { anchor: m.0 as usize, head: m.1 as usize },
                ),
                None => !found && *final(buf) == *old(buf),
            }
        }),
{
    let to = buf.selection().range().start;
    let doc = copy_text(buf);
    match query.previous(doc.as_str(), to) {
        Some(m) => {
            buf.set_selection(Selection { anchor: m.start, head: m.end });
            true
        },
        None => false,
    }
}

/// Selects the last match, the one selection this editor has for "select
/// all matches". Says whether there was one.
pub fn select_all_matches(buf: &mut Buffer, query: &Query) -> (found: bool)
    requires
        old(buf).wf(),
    ensures
        ({
            let ms = query_matches(*query, text_of(old(buf).bytes()));
            if ms.len() == 0 {
                !found && *final(buf) == *old(buf)
            } else {
                found && *final(buf) == old(buf).with_selection(
                    Selection { anchor: ms.last().0 as usize, head: ms.last().1 as usize },
                )
            }
        }),
{
    let doc = copy_text(buf);
    let ms = query.matches(doc.as_str());
    let n = ms.len();
    if n == 0 {
        return false;
    }
    proof {
        assert(ranges_view(ms@)[n - 1] == (ms@[n - 1].start as int, ms@[n - 1].end as int));
    }
    buf.set_selection(Selection { anchor: ms[n - 1].start, head: ms[n - 1].end });
    true
}

/// Of the highlighted matches, the one the selection covers, which is
/// painted as the selected match.
pub fn search_highlights(matches: &Vec<Range<usize>>, sel: Selection) -> (r: Option<Range<usize>>)
    ensures
        match r {
            Some(m) => m.start == sel_start(sel) && m.end == sel_end(sel) && exists|i: int|
                0 <= i < matches@.len() && #[trigger] matches@[i] == m,
            None => forall|i: int|
                0 <= i < matches@.len() ==> !(#[trigger] matches@[i].start == sel_start(sel)
                    && matches@[i].end == sel_end(sel)),
        },
{
    let cur = sel.range();
    let mut i: usize = 0;
    while i < matches.len()
        invariant
            i <= matches@.len(),
            cur.start == sel_start(sel),
            cur.end == sel_end(sel),
            forall|j: int|
                0 <= j < i ==> !(#[trigger] matches@[j].start == sel_start(sel) && matches@[j].end
                    == sel_end(sel)),
        decreases matches@.len() - i,
    {
        if matches[i].start == cur.start && matches[i].end == cur.end {
            let m = matches[i].start..matches[i].end;
            proof {
                assert(matches@[i as int] == m);
            }
            return Some(m);
        }
        i += 1;
    }
    None
}

} // verus!
