//! The platform's text input: IME composition, and the UTF-16 code unit
//! offsets in which the platform speaks of the document.
use crate::buffer::editing::{sel_end, sel_start};
use crate::buffer::typing::{edited, edited_text, insert_text, typed_spec, Typed};
use crate::buffer::{clamp_spec, Buffer, EditKind, Selection};
use crate::text::{
    byte_len, bytes_of, char_at, chars_in, lemma_boundary_step, lemma_range_split, lemma_range_valid,
    lemma_utf16_below_utf8, next_boundary, substr, utf16_len, utf16_units, utf8,
};
use std::ops::Range;
use vstd::prelude::*;
use vstd::utf8::*;

verus! {

broadcast use {
    vstd::utf8::decode_utf8_encode_utf8,
    vstd::utf8::is_char_boundary_start_end_of_seq,
};

/// `offset`, or the end of the text where it lies beyond.
pub open spec fn upto(b: Seq<u8>, offset: int) -> int {
    if offset < b.len() {
        offset
    } else {
        b.len() as int
    }
}

/// `p` is where the first `units` UTF-16 code units of `b` end: the first char
/// boundary before which the text takes at least that many units, or the end
/// of the text.
pub open spec fn is_utf16_stop(b: Seq<u8>, units: int, p: int) -> bool {
    &&& 0 <= p <= b.len()
    &&& is_char_boundary(b, p)
    &&& (p == b.len() || utf16_units(chars_in(b, 0, p)) >= units)
    &&& forall|q: int|
        0 <= q < p && #[trigger] is_char_boundary(b, q) ==> utf16_units(chars_in(b, 0, q)) < units
}

/// The byte offset at which the first `units` UTF-16 code units of `b` end.
pub open spec fn utf16_stop(b: Seq<u8>, units: int) -> int {
    choose|p: int| is_utf16_stop(b, units, p)
}

proof fn lemma_utf16_stop_unique(b: Seq<u8>, units: int, p: int)
    requires
        is_utf16_stop(b, units, p),
    ensures
        utf16_stop(b, units) == p,
{
    let q = utf16_stop(b, units);
    assert(is_utf16_stop(b, units, q));
    if q < p {
        assert(utf16_units(chars_in(b, 0, q)) < units);
    } else if p < q {
        assert(utf16_units(chars_in(b, 0, p)) < units);
    }
}

/// How many UTF-16 code units the text before `offset` takes (the whole text
/// when `offset` lies beyond it).
pub fn to_utf16(buf: &Buffer, offset: usize) -> (r: usize)
    requires
        buf.wf(),
        is_char_boundary(buf.bytes(), upto(buf.bytes(), offset as int)),
    ensures
        r == utf16_units(chars_in(buf.bytes(), 0, upto(buf.bytes(), offset as int))),
{
    proof {
        buf.lemma_wf();
    }
    let n = buf.len();
    let end = if offset < n {
        offset
    } else {
        n
    };
    let before = substr(buf.text(), 0, end);
    utf16_len(before)
}

/// The byte offset at which the first `units` UTF-16 code units of the text
/// end.
pub fn from_utf16(buf: &Buffer, units: usize) -> (r: usize)
    requires
        buf.wf(),
    ensures
        is_utf16_stop(buf.bytes(), units as int, r as int),
        r == utf16_stop(buf.bytes(), units as int),
{
    proof {
        buf.lemma_wf();
    }
    let text = buf.text();
    let ghost b = buf.bytes();
    let n = byte_len(text);
    let mut pos: usize = 0;
    let mut count: usize = 0;
    proof {
        assert(chars_in(b, 0, 0) =~= Seq::<char>::empty());
    }
    while pos < n
        invariant
            b == bytes_of(text),
            b == buf.bytes(),
            n == b.len(),
            valid_utf8(b),
            pos <= n,
            is_char_boundary(b, pos as int),
            count == utf16_units(chars_in(b, 0, pos as int)),
            forall|q: int|
                0 <= q < pos && #[trigger] is_char_boundary(b, q) ==> utf16_units(chars_in(b, 0, q))
                    < units,
        decreases n - pos,
    {
        if count >= units {
            proof {
                lemma_utf16_stop_unique(b, units as int, pos as int);
            }
            return pos;
        }
        let c = char_at(text, pos);
        let nb = next_boundary(text, pos);
        proof {
            lemma_boundary_step(b, pos as int);
            let l = length_of_first_scalar(b.subrange(pos as int, n as int));
            if nb < pos + l {
                assert(!is_char_boundary(b, nb as int));
            } else if nb > pos + l {
                assert(is_char_boundary(b, pos + l));
            }
            lemma_range_split(b, 0, pos as int, nb as int);
            let before = chars_in(b, 0, pos as int);
            let now = chars_in(b, 0, nb as int);
            assert(now == before + seq![c]);
            assert(now.drop_last() =~= before);
            lemma_range_valid(b, 0, nb as int);
            lemma_utf16_below_utf8(now);
            assert(encode_utf8(now) == b.subrange(0, nb as int));
        }
        if c as u32 >= 0x10000 {
            count = count + 2;
        } else {
            count = count + 1;
        }
        pos = nb;
    }
    proof {
        lemma_utf16_stop_unique(b, units as int, pos as int);
    }
    pos
}

/// A range in UTF-16 code units as a byte range.
pub fn range_from_utf16(buf: &Buffer, r: &Range<usize>) -> (out: Range<usize>)
    requires
        buf.wf(),
    ensures
        out.start == utf16_stop(buf.bytes(), r.start as int),
        out.end == utf16_stop(buf.bytes(), r.end as int),
        is_utf16_stop(buf.bytes(), r.start as int, out.start as int),
        is_utf16_stop(buf.bytes(), r.end as int, out.end as int),
{
    let s = from_utf16(buf, r.start);
    let e = from_utf16(buf, r.end);
    s..e
}

/// The text of a range given in UTF-16 code units, and the range it really
/// covers once its ends are moved to char boundaries, in UTF-16 code units.
pub fn text_for_range(buf: &Buffer, range: &Range<usize>) -> (r: (String, Range<usize>))
    requires
        buf.wf(),
        utf16_stop(buf.bytes(), range.start as int) <= utf16_stop(buf.bytes(), range.end as int),
    ensures
        ({
            let b = buf.bytes();
            let s = utf16_stop(b, range.start as int);
            let e = utf16_stop(b, range.end as int);
            &&& r.0@ == chars_in(b, s, e)
            &&& r.1.start == utf16_units(chars_in(b, 0, s))
            &&& r.1.end == utf16_units(chars_in(b, 0, e))
        }),
{
    let r = range_from_utf16(buf, range);
    let text = substr(buf.text(), r.start, r.end).to_owned();
    let a = to_utf16(buf, r.start);
    let b = to_utf16(buf, r.end);
    (text, a..b)
}

/// The selection in UTF-16 code units, and whether it runs backwards.
pub fn selected_text_range(buf: &Buffer) -> (r: (Range<usize>, bool))
    requires
        buf.wf(),
        is_char_boundary(buf.bytes(), upto(buf.bytes(), sel_start(buf.sel()) as int)),
        is_char_boundary(buf.bytes(), upto(buf.bytes(), sel_end(buf.sel()) as int)),
    ensures
        ({
            let b = buf.bytes();
            &&& r.0.start == utf16_units(chars_in(b, 0, upto(b, sel_start(buf.sel()) as int)))
            &&& r.0.end == utf16_units(chars_in(b, 0, upto(b, sel_end(buf.sel()) as int)))
            &&& r.1 == (buf.sel().head < buf.sel().anchor)
        }),
{
    let sel = buf.selection();
    let range = sel.range();
    let a = to_utf16(buf, range.start);
    let b = to_utf16(buf, range.end);
    (a..b, sel.head < sel.anchor)
}

/// The composition in UTF-16 code units, if there is one.
pub fn marked_text_range(buf: &Buffer, marked: &Option<Range<usize>>) -> (r: Option<Range<usize>>)
    requires
        buf.wf(),
        marked matches Some(m) ==> is_char_boundary(buf.bytes(), upto(buf.bytes(), m.start as int))
            && is_char_boundary(buf.bytes(), upto(buf.bytes(), m.end as int)),
    ensures
        match *marked {
            None => r is None,
            Some(m) => (r matches Some(u) && u.start == utf16_units(
                chars_in(buf.bytes(), 0, upto(buf.bytes(), m.start as int)),
            ) && u.end == utf16_units(chars_in(buf.bytes(), 0, upto(buf.bytes(), m.end as int)))),
        },
{
    match marked {
        Some(m) => {
            let a = to_utf16(buf, m.start);
            let b = to_utf16(buf, m.end);
            Some(a..b)
        },
        None => None,
    }
}

/// Where the platform's input goes, as a byte range: `range`, given in UTF-16
/// code units, when there is one, else the composition.
pub open spec fn input_target(b: Seq<u8>, marked: Option<Range<usize>>, range: Option<Range<usize>>) -> Option<
    (int, int),
> {
    match range {
        Some(u) => Some((utf16_stop(b, u.start as int), utf16_stop(b, u.end as int))),
        None => match marked {
            Some(m) => Some((m.start as int, m.end as int)),
            None => None,
        },
    }
}

/// The selection that typed input goes over: the target, unless it is
/// already what the selection covers.
pub open spec fn input_selection(sel: Selection, target: Option<(int, int)>) -> Selection {
    match target {
        Some(t) => if t.0 == sel_start(sel) && t.1 == sel_end(sel) {
            sel
        } else {
            Selection { anchor: t.0 as usize, head: t.1 as usize }
        },
        None => sel,
    }
}

fn target_of(buf: &Buffer, marked: &Option<Range<usize>>, range: &Option<Range<usize>>) -> (r: Option<
    Range<usize>,
>)
    requires
        buf.wf(),
    ensures
        match input_target(buf.bytes(), *marked, *range) {
            Some(t) => (r matches Some(x) && x.start == t.0 && x.end == t.1),
            None => r is None,
        },
        range is Some ==> (r matches Some(x) && is_utf16_stop(buf.bytes(), range->0.start as int, x.start as int)
            && is_utf16_stop(buf.bytes(), range->0.end as int, x.end as int)),
{
    match range {
        Some(u) => Some(range_from_utf16(buf, u)),
        None => match marked {
            Some(m) => Some(m.start..m.end),
            None => None,
        },
    }
}

/// Types text from the platform over `range` (in UTF-16 code units), or over
/// the composition when there is no range, or else over the selection; the
/// composition ends.
pub fn replace_text_in_range(
    buf: &mut Buffer,
    marked: &mut Option<Range<usize>>,
    range: Option<Range<usize>>,
    text: &str,
) -> (r: Typed)
    requires
        old(buf).wf(),
        old(buf).bytes().len() + utf8(text@).len() + 2 <= usize::MAX,
        ({
            let b = old(buf).bytes();
            let s = input_selection(old(buf).sel(), input_target(b, *old(marked), range));
            text@.len() == 1 ==> s.anchor <= b.len() && s.head <= b.len() && is_char_boundary(
                b,
                s.anchor as int,
            ) && is_char_boundary(b, s.head as int)
        }),
    ensures
        *final(marked) is None,
        typed_spec(
            old(buf).with_selection(
                input_selection(old(buf).sel(), input_target(old(buf).bytes(), *old(marked), range)),
            ),
            *final(buf),
            text@,
            r,
        ),
{
    let target = target_of(buf, marked, &range);
    *marked = None;
    let sel = buf.selection();
    let cur = sel.range();
    let ghost want = input_selection(old(buf).sel(), input_target(old(buf).bytes(), *old(marked), range));
    proof {
        old(buf).lemma_with_selection(old(buf).sel());
        assert(old(buf).with_selection(old(buf).sel()) == *old(buf));
    }
    match target {
        Some(t) => {
            if t.start != cur.start || t.end != cur.end {
                buf.set_selection(Selection { anchor: t.start, head: t.end });
            }
        },
        None => {},
    }
    proof {
        old(buf).lemma_with_selection(want);
    }
    insert_text(buf, text)
}

/// The byte range that a composition replaces: the target, or else the
/// selection.
pub open spec fn composition_range(buf: Buffer, marked: Option<Range<usize>>, range: Option<Range<usize>>) -> (
    int,
    int,
) {
    match input_target(buf.bytes(), marked, range) {
        Some(t) => t,
        None => (sel_start(buf.sel()) as int, sel_end(buf.sel()) as int),
    }
}

/// Replaces `range` (in UTF-16 code units), or the composition, or else the
/// selection, with the text being composed, and marks that text as the
/// composition; `new_selected`, relative to the start of the composition,
/// becomes the selection, each end kept within the text.
pub fn replace_and_mark_text_in_range(
    buf: &mut Buffer,
    marked: &mut Option<Range<usize>>,
    range: Option<Range<usize>>,
    text: &str,
    new_selected: Option<Range<usize>>,
)
    requires
        old(buf).wf(),
        old(buf).bytes().len() + utf8(text@).len() <= usize::MAX,
        ({
            let b = old(buf).bytes();
            let (s, e) = composition_range(*old(buf), *old(marked), range);
            &&& clamp_spec(b, s) <= clamp_spec(b, e)
            &&& s + utf8(text@).len() <= usize::MAX
            &&& new_selected matches Some(ns) ==> s + ns.start <= usize::MAX && s + ns.end <= usize::MAX
        }),
    ensures
        ({
            let (s, e) = composition_range(*old(buf), *old(marked), range);
            let t = utf8(text@);
            let n = final(buf).bytes().len() as int;
            &&& edited_text(*old(buf), *final(buf), s, e, t, EditKind::Type)
            &&& match new_selected {
                None => edited(*old(buf), *final(buf), s, e, t, EditKind::Type),
                Some(ns) => final(buf).sel() == (Selection {
                    anchor: upto(final(buf).bytes(), s + ns.start) as usize,
                    head: upto(final(buf).bytes(), s + ns.end) as usize,
                }),
            }
            &&& *final(marked) == if t.len() == 0 {
                None
            } else {
                Some(Range { start: s as usize, end: (s + t.len()) as usize })
            }
        }),
{
    let target = target_of(buf, marked, &range);
    let r = match target {
        Some(t) => t,
        None => buf.selection().range(),
    };
    buf.edit(r.start..r.end, text, EditKind::Type);
    let tl = byte_len(text);
    if tl == 0 {
        *marked = None;
    } else {
        *marked = Some(r.start..r.start + tl);
    }
    match new_selected {
        Some(ns) => {
            let s = r.start + ns.start;
            let e = r.start + ns.end;
            let n = buf.len();
            let anchor = if s < n {
                s
            } else {
                n
            };
            let head = if e < n {
                e
            } else {
                n
            };
            buf.set_selection(Selection { anchor, head });
        },
        None => {},
    }
}

} // verus!
