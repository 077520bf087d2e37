//! Typing and deleting in the editor: backspace that removes bracket pairs
//! and whole indent units, and typing that closes brackets and quotes.
use crate::buffer::{capped_push, clamp_spec, is_clamped, lemma_ascii_boundaries, lemma_clamp_exists, lemma_clamp_unique, lemma_line_bounds, lemma_line_of_unique, line_of_spec, line_start_of, may_merge, Buffer, EditKind, RedoStep, Selection, UndoStep};
use crate::buffer::editing::{sel_end, sel_start};
use crate::text::{char_at_spec, char_before_spec, next_boundary_spec, prev_boundary_spec, utf8};
use vstd::prelude::*;
use vstd::utf8::*;

verus! {

// ─── What an edit leaves behind ────────────────────────────────────────────

/// The buffer after `Buffer::edit` replaced `start..end` (each clamped to a
/// char boundary) with `text`, apart from the selection: no goal column, no
/// redo, and a new undo step unless it folds into the last one.
pub open spec fn edited_text(old: Buffer, new: Buffer, start: int, end: int, text: Seq<u8>, kind: EditKind) -> bool {
    let b = old.bytes();
    let cs = clamp_spec(b, start);
    let ce = clamp_spec(b, end);
    let step: UndoStep = (b, old.sel(), kind);
    &&& new.wf()
    &&& new.bytes() == b.subrange(0, cs) + text + b.subrange(ce, b.len() as int)
    &&& new.goal() is None
    &&& new.redo_view() == Seq::<RedoStep>::empty()
    &&& (new.undo_view() == capped_push(old.undo_view(), step) || (may_merge(old.undo_view(), kind, false)
        && new.undo_view() == old.undo_view()))
    &&& !may_merge(old.undo_view(), kind, false) ==> new.undo_view() == capped_push(old.undo_view(), step)
}

/// The buffer after `Buffer::edit`: the cursor after the inserted text.
pub open spec fn edited(old: Buffer, new: Buffer, start: int, end: int, text: Seq<u8>, kind: EditKind) -> bool {
    let cs = clamp_spec(old.bytes(), start);
    &&& edited_text(old, new, start, end, text, kind)
    &&& new.sel() == (Selection { anchor: (cs + text.len()) as usize, head: (cs + text.len()) as usize })
}

proof fn lemma_clamp_mono(b: Seq<u8>, a: int, e: int)
    requires
        valid_utf8(b),
        0 <= a <= e,
    ensures
        clamp_spec(b, a) <= clamp_spec(b, e),
{
    lemma_clamp_exists(b, a);
    lemma_clamp_exists(b, e);
    let ca = clamp_spec(b, a);
    let ce = clamp_spec(b, e);
    if ca > ce {
        assert(is_char_boundary(b, ca));
    }
}

pub(crate) proof fn lemma_clamp_boundary(b: Seq<u8>, p: int)
    requires
        0 <= p <= b.len(),
        is_char_boundary(b, p),
    ensures
        clamp_spec(b, p) == p,
{
    assert(is_clamped(b, p, p));
    lemma_clamp_unique(b, p, p);
}

// ─── Backspace ─────────────────────────────────────────────────────────────

/// Bytes `from..to` of `b` are all spaces.
pub open spec fn all_spaces(b: Seq<u8>, from: int, to: int) -> bool {
    forall|k: int| from <= k < to ==> b[k] == 0x20u8
}

/// An opening char right before its closing one: `()`, `[]`, `{}` or a
/// doubled quote.
pub open spec fn is_pair(before: char, after: char) -> bool {
    ||| before == '(' && after == ')'
    ||| before == '[' && after == ']'
    ||| before == '{' && after == '}'
    ||| before == '\'' && after == '\''
    ||| before == '"' && after == '"'
    ||| before == '`' && after == '`'
}

/// What backspace deletes at a cursor at `pos` (not at the start): an
/// empty pair round the cursor, an indent unit back to an even column when
/// only spaces stand before it on its line, else the char before it.
pub open spec fn backspace_range(b: Seq<u8>, pos: int) -> (int, int) {
    let pair = pos < b.len() && is_pair(char_before_spec(b, pos), char_at_spec(b, pos));
    let ls = line_start_of(b, line_of_spec(b, pos));
    let col = pos - ls;
    if !pair && col > 0 && all_spaces(b, ls, pos) {
        (
            ls + if col % 2 == 0 {
                col - 2
            } else {
                col - 1
            },
            pos,
        )
    } else {
        (
            prev_boundary_spec(b, pos),
            if pair {
                next_boundary_spec(b, pos)
            } else {
                pos
            },
        )
    }
}

fn pair_at(before: Option<char>, after: Option<char>) -> (r: bool)
    ensures
        r == (before is Some && after is Some && is_pair(before->0, after->0)),
{
    match (before, after) {
        (Some(a), Some(b)) => (a == '(' && b == ')') || (a == '[' && b == ']') || (a == '{' && b == '}') || (a
            == '\'' && b == '\'') || (a == '"' && b == '"') || (a == '`' && b == '`'),
        _ => false,
    }
}

/// Backspace: deletes the selection, or at a cursor the range
/// `backspace_range` gives; nothing at the start of the text. Says whether
/// the text changed.
pub fn delete_backward(buf: &mut Buffer) -> (changed: bool)
    requires
        old(buf).wf(),
        old(buf).sel().anchor == old(buf).sel().head ==> old(buf).sel().head <= old(buf).bytes().len()
            && is_char_boundary(old(buf).bytes(), old(buf).sel().head as int),
    ensures
        changed == !(old(buf).sel().anchor == old(buf).sel().head && old(buf).sel().head == 0),
        !changed ==> *final(buf) == *old(buf),
        changed && old(buf).sel().anchor != old(buf).sel().head ==> edited(
            *old(buf),
            *final(buf),
            sel_start(old(buf).sel()) as int,
            sel_end(old(buf).sel()) as int,
            Seq::empty(),
            EditKind::Delete,
        ),
        changed && old(buf).sel().anchor == old(buf).sel().head ==> edited(
            *old(buf),
            *final(buf),
            backspace_range(old(buf).bytes(), old(buf).sel().head as int).0,
            backspace_range(old(buf).bytes(), old(buf).sel().head as int).1,
            Seq::empty(),
            EditKind::Delete,
        ),
{
    proof {
        old(buf).lemma_wf();
    }
    let sel = buf.selection;
    let ghost b = buf.bytes();
    let _size = buf.len();
    proof {
        reveal_strlit("");
        assert(crate::text::bytes_of("") =~= Seq::<u8>::empty());
    }
    if !sel.is_empty() {
        let range = sel.range();
        proof {
            lemma_clamp_mono(b, range.start as int, range.end as int);
        }
        buf.edit(range, "", EditKind::Delete);
        return true;
    }
    let pos = sel.head;
    if pos == 0 {
        return false;
    }
    let before = buf.char_before(pos);
    let after = buf.char_at(pos);
    let pair = pair_at(before, after);
    let start = buf.prev_char(pos);
    let end = if pair {
        buf.next_char(pos)
    } else {
        pos
    };
    let line = buf.line_of(pos);
    let ls = buf.line_start(line);
    proof {
        lemma_line_of_unique(b, pos as int, line as int);
        lemma_line_bounds(b, line as int);
    }
    // Only spaces between the start of the line and the cursor.
    let bytes = buf.text().as_bytes();
    let mut k: usize = ls;
    let mut spaces = true;
    while k < pos
        invariant
            bytes@ == b,
            ls <= k <= pos,
            pos <= b.len(),
            spaces == all_spaces(b, ls as int, k as int),
        decreases pos - k,
    {
        if bytes[k] != 32u8 {
            spaces = false;
        }
        k += 1;
    }
    let col = pos - ls;
    if !pair && col > 0 && spaces {
        let target = if col % 2 == 0 {
            col - 2
        } else {
            col - 1
        };
        proof {
            let t = ls + target;
            assert(b[t as int] == 0x20u8);
            lemma_ascii_boundaries(b, t as int);
            lemma_clamp_boundary(b, t as int);
            lemma_clamp_boundary(b, pos as int);
        }
        buf.edit(ls + target..pos, "", EditKind::Delete);
    } else {
        proof {
            lemma_clamp_boundary(b, pos as int);
            lemma_clamp_mono(b, start as int, end as int);
        }
        buf.edit(start..end, "", EditKind::Delete);
    }
    true
}

// ─── Typing ────────────────────────────────────────────────────────────────

/// What typing did: moved the cursor only, or changed the text.
#[derive(Clone, Copy, Debug, PartialEq, Eq, Structural)]
pub enum Typed {
    Moved,
    Edited,
}

/// A char that closes a pair: a closing bracket or a quote.
pub open spec fn is_closing(c: char) -> bool {
    c == ')' || c == ']' || c == '}' || is_quote(c)
}

pub open spec fn is_quote(c: char) -> bool {
    c == '\'' || c == '"' || c == '`'
}

/// The char that closes `c`: the matching bracket, or the quote itself.
pub open spec fn closer(c: char) -> Option<char> {
    if c == '(' {
        Some(')')
    } else if c == '[' {
        Some(']')
    } else if c == '{' {
        Some('}')
    } else if is_quote(c) {
        Some(c)
    } else {
        None
    }
}

/// The char at `pos`, if any.
pub open spec fn char_after(b: Seq<u8>, pos: int) -> Option<char> {
    if pos < b.len() {
        Some(char_at_spec(b, pos))
    } else {
        None
    }
}

/// The char before `pos`, if any.
pub open spec fn char_ahead(b: Seq<u8>, pos: int) -> Option<char> {
    if pos > 0 {
        Some(char_before_spec(b, pos))
    } else {
        None
    }
}

/// A pair may open before `next`: at the end, before white space, or before
/// one of `)]}:;>`.
pub open spec fn opens_before(next: Option<char>) -> bool {
    match next {
        None => true,
        Some(n) => crate::unicode::is_whitespace_spec(n) || n == ')' || n == ']' || n == '}' || n == ':' || n
            == ';' || n == '>',
    }
}

/// A quote may open after `prev`: not right after a word char or the same
/// quote.
pub open spec fn quote_may_open(c: char, prev: Option<char>) -> bool {
    !is_quote(c) || !(prev is Some && (crate::unicode::alphanumeric(prev->0) || prev->0 == '_' || prev->0 == c))
}

/// Typing the closing char that already follows the cursor steps over it.
pub open spec fn steps_over(b: Seq<u8>, sel: Selection, text: Seq<char>) -> bool {
    &&& text.len() == 1
    &&& is_closing(text[0])
    &&& sel.anchor == sel.head
    &&& char_after(b, sel.head as int) == Some(text[0])
}

/// Typing an opening char round a selection wraps it.
pub open spec fn wraps(sel: Selection, text: Seq<char>) -> bool {
    &&& text.len() == 1
    &&& closer(text[0]) is Some
    &&& sel.anchor != sel.head
}

/// Typing an opening char at a cursor inserts the pair.
pub open spec fn pairs(b: Seq<u8>, sel: Selection, text: Seq<char>) -> bool {
    &&& text.len() == 1
    &&& !steps_over(b, sel, text)
    &&& closer(text[0]) is Some
    &&& sel.anchor == sel.head
    &&& opens_before(char_after(b, sel.head as int))
    &&& quote_may_open(text[0], char_ahead(b, sel.head as int))
}

proof fn lemma_ascii_utf8(c: char)
    requires
        (c as u32) < 0x80,
    ensures
        utf8(seq![c]).len() == 1,
{
    let one = seq![c];
    assert(one.drop_first() =~= Seq::<char>::empty());
    assert(encode_utf8(one) =~= encode_scalar(one[0] as u32) + encode_utf8(one.drop_first()));
}

fn is_closing_char(c: char) -> (r: bool)
    ensures
        r == is_closing(c),
{
    c == ')' || c == ']' || c == '}' || c == '\'' || c == '"' || c == '`'
}

fn closer_of(c: char) -> (r: Option<char>)
    ensures
        r == closer(c),
{
    if c == '(' {
        Some(')')
    } else if c == '[' {
        Some(']')
    } else if c == '{' {
        Some('}')
    } else if c == '\'' || c == '"' || c == '`' {
        Some(c)
    } else {
        None
    }
}

/// The cursor sits in a pair the editor closed itself: a closing char
/// follows it.
fn auto_closed_at(buf: &Buffer, pos: usize) -> (r: bool)
    requires
        buf.wf(),
        pos <= buf.bytes().len(),
        is_char_boundary(buf.bytes(), pos as int),
    ensures
        r == (char_after(buf.bytes(), pos as int) is Some && is_closing(char_after(buf.bytes(), pos as int)->0)),
{
    let before = buf.char_before(pos);
    let at = buf.char_at(pos);
    let bracket_pair = match (before, at) {
        (Some(a), Some(b)) => (a == '(' && b == ')') || (a == '[' && b == ']') || (a == '{' && b == '}'),
        _ => false,
    };
    let quote_or_closer = match at {
        Some(c) => is_closing_char(c),
        None => false,
    };
    bracket_pair || quote_or_closer
}

fn char_string(a: char, b: Option<char>) -> (r: String)
    ensures
        r@ == match b {
            Some(b) => seq![a, b],
            None => seq![a],
        },
{
    let mut r = String::new();
    crate::text::push_char(&mut r, a);
    match b {
        Some(b) => crate::text::push_char(&mut r, b),
        None => {},
    }
    r
}

/// What typing `text` over the selection of `old` leaves, and what it
/// reports: the steps of `insert_text`.
pub open spec fn typed_spec(old: Buffer, new: Buffer, text: Seq<char>, r: Typed) -> bool {
    let b = old.bytes();
    let sel = old.sel();
    let s = sel_start(sel) as int;
    let e = sel_end(sel) as int;
    let t = text;
    if steps_over(b, sel, t) {
        &&& r == Typed::Moved
        &&& new.wf()
        &&& new.bytes() == b
        &&& new.sel() == (Selection {
            anchor: next_boundary_spec(b, e) as usize,
            head: next_boundary_spec(b, e) as usize,
        })
        &&& new.goal() == old.goal()
        &&& new.undo_view() == old.undo_view()
        &&& new.redo_view() == old.redo_view()
    } else if wraps(sel, t) {
        let nb = b.subrange(0, s) + utf8(seq![t[0]]) + b.subrange(s, e) + utf8(seq![closer(t[0])->0])
            + b.subrange(e, b.len() as int);
        &&& r == Typed::Edited
        &&& new.wf()
        &&& new.bytes() == nb
        &&& new.sel() == (Selection {
            anchor: clamp_spec(nb, s + 1) as usize,
            head: clamp_spec(nb, e + 1) as usize,
        })
        &&& new.goal() is None
        &&& new.redo_view() == Seq::<RedoStep>::empty()
        &&& new.undo_view() == capped_push(old.undo_view(), (b, sel, EditKind::Type))
    } else if pairs(b, sel, t) {
        &&& r == Typed::Edited
        &&& edited_text(old, new, s, e, utf8(seq![t[0], closer(t[0])->0]), EditKind::Type)
        &&& new.sel() == (Selection { anchor: (s + 1) as usize, head: (s + 1) as usize })
    } else {
        &&& r == Typed::Edited
        &&& edited(old, new, s, e, utf8(t), EditKind::Type)
    }
}

/// Types `text` over the selection, closing brackets and quotes as the
/// editor does: a closing char that already follows the cursor is stepped
/// over; an opening bracket or quote wraps a selection, or at a cursor
/// inserts the pair where one may open; anything else replaces the
/// selection.
#[verifier::rlimit(40)]
pub fn insert_text(buf: &mut Buffer, text: &str) -> (r: Typed)
    requires
        old(buf).wf(),
        old(buf).bytes().len() + utf8(text@).len() + 2 <= usize::MAX,
        text@.len() == 1 ==> old(buf).sel().anchor <= old(buf).bytes().len() && old(buf).sel().head
            <= old(buf).bytes().len() && is_char_boundary(old(buf).bytes(), old(buf).sel().anchor as int)
            && is_char_boundary(old(buf).bytes(), old(buf).sel().head as int),
    ensures
        typed_spec(*old(buf), *final(buf), text@, r),
{
    proof {
        old(buf).lemma_wf();
    }
    let ghost b = buf.bytes();
    let sel = buf.selection;
    let range = sel.range();
    let chars = crate::text::chars_vec(text);
    if chars.len() == 1 {
        let c = chars[0];
        let next = buf.char_at(range.end);
        let closing = is_closing_char(c);
        let next_is_c = match next {
            Some(n) => n == c,
            None => false,
        };
        if closing && sel.is_empty() && next_is_c && auto_closed_at(buf, range.end) {
            let pos = buf.next_char(range.end);
            buf.selection = Selection::cursor(pos);
            return Typed::Moved;
        }
        match closer_of(c) {
            Some(close) => {
                let quote = c == '\'' || c == '"' || c == '`';
                if !sel.is_empty() {
                    let inner = crate::text::substr(buf.text(), range.start, range.end);
                    let mut wrapped = char_string(c, None);
                    wrapped.append(inner);
                    crate::text::push_char(&mut wrapped, close);
                    let start = range.start;
                    let inner_len = crate::text::byte_len(inner);
                    let end = range.end;
                    let ghost w = wrapped@;
                    let mut edits: Vec<(std::ops::Range<usize>, String)> = Vec::new();
                    edits.push((range, wrapped));
                    proof {
                        lemma_ascii_utf8(c);
                        lemma_ascii_utf8(close);
                        assert(w =~= seq![c] + inner@ + seq![close]);
                        crate::text::lemma_utf8_concat(seq![c] + inner@, seq![close]);
                        crate::text::lemma_utf8_concat(seq![c], inner@);
                        let es = edits@;
                        assert(crate::buffer::spliced(b, es, 1, end as int) == b.subrange(end as int, b.len() as int));
                        assert(crate::buffer::apply_edits(b, es) == b.subrange(0, start as int) + utf8(w)
                            + b.subrange(end as int, b.len() as int));
                        assert(crate::buffer::edits_fit(b, es));
                        crate::buffer::lemma_fit_disjoint(b, es);
                    }
                    buf.edit_many(edits, Selection { anchor: start + 1, head: start + 1 + inner_len }, EditKind::Type);
                    proof {
                        assert(buf.bytes() =~= b.subrange(0, start as int) + utf8(seq![c]) + b.subrange(
                            start as int,
                            end as int,
                        ) + utf8(seq![close]) + b.subrange(end as int, b.len() as int));
                    }
                    return Typed::Edited;
                }
                let next_ok = match next {
                    None => true,
                    Some(n) => crate::unicode::is_whitespace(n) || n == ')' || n == ']' || n == '}' || n == ':'
                        || n == ';' || n == '>',
                };
                let prev = buf.char_before(range.start);
                let quote_ok = !quote || !match prev {
                    Some(p) => crate::unicode::is_alphanumeric(p) || p == '_' || p == c,
                    None => false,
                };
                if next_ok && quote_ok {
                    let pair = char_string(c, Some(close));
                    let start = range.start;
                    proof {
                        lemma_ascii_utf8(c);
                        lemma_ascii_utf8(close);
                        crate::text::lemma_utf8_concat(seq![c], seq![close]);
                        assert(seq![c] + seq![close] =~= pair@);
                    }
                    buf.edit(range, pair.as_str(), EditKind::Type);
                    buf.selection = Selection::cursor(start + 1);
                    return Typed::Edited;
                }
            },
            None => {},
        }
    }
    proof {
        lemma_clamp_mono(b, range.start as int, range.end as int);
    }
    buf.edit(range, text, EditKind::Type);
    Typed::Edited
}

} // verus!
