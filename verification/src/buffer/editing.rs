//! The editor's line commands: indent, outdent, comment toggling and
//! moving lines, each as one undoable step on the buffer.
use crate::buffer::{capped_push, clamp_spec, edit_text, edits_fit, line_end_of, line_of_spec, line_start_of, line_starts_of, lemma_line_bounds, lemma_line_of_unique, lemma_starts_upto, spliced, Buffer, EditKind, RedoStep, Selection};
use crate::text::utf8;
use std::ops::Range;
use vstd::prelude::*;
use vstd::string::StringExecFns;
use vstd::utf8::*;

verus! {

broadcast use vstd::string::group_string_axioms;

/// An edit as plain values: start, end, and the bytes that replace them.
pub open spec fn span_of(e: (Range<usize>, String)) -> (int, int, Seq<u8>) {
    (e.0.start as int, e.0.end as int, edit_text(e))
}

/// The text from offset `from` on, with spans `k..` applied.
pub open spec fn splice_spans(b: Seq<u8>, sp: Seq<(int, int, Seq<u8>)>, k: int, from: int) -> Seq<u8>
    decreases sp.len() - k,
{
    if k >= sp.len() || k < 0 {
        b.subrange(from, b.len() as int)
    } else {
        b.subrange(from, sp[k].0) + sp[k].2 + splice_spans(b, sp, k + 1, sp[k].1)
    }
}

/// The text with every span applied.
pub open spec fn apply_spans(b: Seq<u8>, sp: Seq<(int, int, Seq<u8>)>) -> Seq<u8> {
    splice_spans(b, sp, 0, 0)
}

pub proof fn lemma_spans_agree(b: Seq<u8>, es: Seq<(Range<usize>, String)>, k: int, from: int)
    requires
        0 <= k,
    ensures
        spliced(b, es, k, from) == splice_spans(b, es.map_values(|e: (Range<usize>, String)| span_of(e)), k, from),
    decreases es.len() - k,
{
    if k < es.len() {
        lemma_spans_agree(b, es, k + 1, es[k].0.end as int);
    }
}

/// What a command leaves behind: the text with `spans` applied, the
/// selection `sel` clamped into it, no goal column, no redo, and one undo
/// step holding the text and selection from before.
pub open spec fn commanded(old: Buffer, new: Buffer, spans: Seq<(int, int, Seq<u8>)>, sel: Selection) -> bool {
    &&& new.wf()
    &&& new.bytes() == apply_spans(old.bytes(), spans)
    &&& new.sel() == (Selection {
        anchor: clamp_spec(new.bytes(), sel.anchor as int) as usize,
        head: clamp_spec(new.bytes(), sel.head as int) as usize,
    })
    &&& new.goal() is None
    &&& new.redo_view() == Seq::<RedoStep>::empty()
    &&& new.undo_view() == capped_push(old.undo_view(), (old.bytes(), old.sel(), EditKind::Other))
}

pub open spec fn sel_start(s: Selection) -> usize {
    if s.anchor <= s.head {
        s.anchor
    } else {
        s.head
    }
}

pub open spec fn sel_end(s: Selection) -> usize {
    if s.anchor <= s.head {
        s.head
    } else {
        s.anchor
    }
}

/// The first and last line the selection touches.
pub open spec fn first_line(b: Seq<u8>, s: Selection) -> int {
    line_of_spec(b, sel_start(s) as int)
}

pub open spec fn last_line(b: Seq<u8>, s: Selection) -> int {
    line_of_spec(b, sel_end(s) as int)
}

/// Two spaces at the start of each line from `l0` to `l1`.
pub open spec fn indent_spans(b: Seq<u8>, l0: int, l1: int) -> Seq<(int, int, Seq<u8>)> {
    Seq::new(
        (l1 - l0 + 1) as nat,
        |j: int| (line_start_of(b, l0 + j), line_start_of(b, l0 + j), utf8(seq![' ', ' '])),
    )
}

/// An offset moved past the two spaces of its own line and every line above
/// it in the block.
pub open spec fn indent_shift(b: Seq<u8>, l0: int, p: usize) -> usize {
    (p + 2 * (line_of_spec(b, p as int) - l0 + 1)) as usize
}

/// Offsets stay representable once every line has grown by two bytes.
pub open spec fn room_to_indent(buf: Buffer) -> bool {
    &&& buf.sel().anchor + 2 * line_starts_of(buf.bytes()).len() <= usize::MAX
    &&& buf.sel().head + 2 * line_starts_of(buf.bytes()).len() <= usize::MAX
    &&& buf.bytes().len() + 2 * line_starts_of(buf.bytes()).len() <= usize::MAX
}

fn two_spaces() -> (r: String)
    ensures
        r@ == seq![' ', ' '],
{
    let mut s = String::new();
    s.append("  ");
    proof {
        reveal_strlit("  ");
        assert(s@ =~= seq![' ', ' ']);
    }
    s
}

/// Indents every line the selection touches by two spaces, keeping the
/// selection on the same text.
pub fn indent_more(buf: &mut Buffer)
    requires
        old(buf).wf(),
        room_to_indent(*old(buf)),
    ensures
        ({
            let b = old(buf).bytes();
            let s = old(buf).sel();
            let l0 = first_line(b, s);
            commanded(
                *old(buf),
                *final(buf),
                indent_spans(b, l0, last_line(b, s)),
                Selection { anchor: indent_shift(b, l0, s.anchor), head: indent_shift(b, l0, s.head) },
            )
        }),
{
    proof {
        buf.lemma_wf();
    }
    let ghost b = buf.bytes();
    let ghost ls = line_starts_of(b);
    let sel = buf.selection;
    let r = sel.range();
    let l0 = buf.line_of(r.start);
    let l1 = buf.line_of(r.end);
    proof {
        lemma_starts_upto(b, b.len());
        lemma_line_of_unique(b, r.start as int, l0 as int);
        lemma_line_of_unique(b, r.end as int, l1 as int);
    }
    let mut edits: Vec<(Range<usize>, String)> = Vec::new();
    let mut l = l0;
    while l <= l1
        invariant
            b == buf.bytes(),
            buf.wf(),
            ls == line_starts_of(b),
            valid_utf8(b),
            l0 <= l <= l1 + 1,
            l1 < ls.len(),
            2 * ls.len() <= usize::MAX,
            edits@.len() == l - l0,
            forall|j: int|
                0 <= j < l - l0 ==> #[trigger] span_of(edits@[j]) == (
                    line_start_of(b, l0 + j),
                    line_start_of(b, l0 + j),
                    utf8(seq![' ', ' ']),
                ),
        decreases l1 + 1 - l,
    {
        let start = buf.line_start(l);
        edits.push((start..start, two_spaces()));
        l += 1;
    }
    let ghost es = edits@;
    proof {
        assert(es.map_values(|e: (Range<usize>, String)| span_of(e)) =~= indent_spans(
            b,
            l0 as int,
            l1 as int,
        ));
        assert forall|k: int| 0 <= k < es.len() implies {
            &&& es[k].0.start <= es[k].0.end <= b.len()
            &&& is_char_boundary(b, es[k].0.start as int)
            &&& is_char_boundary(b, es[k].0.end as int)
        } by {
            assert(span_of(es[k]).0 == line_start_of(b, l0 + k));
            lemma_line_bounds(b, l0 + k);
        }
        assert forall|k: int| 0 <= k < es.len() - 1 implies es[k].0.end <= es[k + 1].0.start
            && es[k].0.start < es[k + 1].0.start by {
            assert(span_of(es[k]).0 == line_start_of(b, l0 + k));
            assert(span_of(es[k + 1]).0 == line_start_of(b, l0 + k + 1));
        }
        assert(edits_fit(b, es));
        lemma_spans_agree(b, es, 0, 0);
        crate::buffer::lemma_fit_disjoint(b, es);
    }
    let la = buf.line_of(sel.anchor);
    let lh = buf.line_of(sel.head);
    proof {
        lemma_line_of_unique(b, sel.anchor as int, la as int);
        lemma_line_of_unique(b, sel.head as int, lh as int);
    }
    let new_sel = Selection { anchor: sel.anchor + 2 * (la - l0 + 1), head: sel.head + 2 * (lh - l0 + 1) };
    buf.edit_many(edits, new_sel, EditKind::Other);
}

/// The bytes of line `l`, without its newline.
pub open spec fn line_bytes(b: Seq<u8>, l: int) -> Seq<u8> {
    b.subrange(line_start_of(b, l), line_end_of(b, l))
}

/// How many spaces a line starts with.
pub open spec fn lead_spaces(s: Seq<u8>) -> nat
    decreases s.len(),
{
    if s.len() > 0 && s[0] == 32u8 {
        1 + lead_spaces(s.drop_first())
    } else {
        0
    }
}

/// What outdenting takes off line `l`: two spaces from an even indent, one
/// from an odd one, nothing from an unindented line.
pub open spec fn outdent_width(b: Seq<u8>, l: int) -> int {
    let n = lead_spaces(line_bytes(b, l));
    if n == 0 {
        0
    } else if n % 2 == 0 {
        2
    } else {
        1
    }
}

/// The removals on the first `n` lines from `l0`.
pub open spec fn outdent_spans(b: Seq<u8>, l0: int, n: int) -> Seq<(int, int, Seq<u8>)>
    decreases n,
{
    if n <= 0 {
        Seq::empty()
    } else {
        let prev = outdent_spans(b, l0, n - 1);
        let l = l0 + n - 1;
        let w = outdent_width(b, l);
        if w > 0 {
            prev.push((line_start_of(b, l), line_start_of(b, l) + w, Seq::<u8>::empty()))
        } else {
            prev
        }
    }
}

/// How far offset `p` moves back for the spaces taken off line `l`: all of
/// them past them, the part before it inside them.
pub open spec fn outdent_cut(b: Seq<u8>, l: int, p: int) -> int {
    let s = line_start_of(b, l);
    let w = outdent_width(b, l);
    if p >= s + w {
        w
    } else if p > s {
        p - s
    } else {
        0
    }
}

/// How far `p` moves back for the first `n` lines from `l0`.
pub open spec fn outdent_total(b: Seq<u8>, l0: int, n: int, p: int) -> int
    decreases n,
{
    if n <= 0 {
        0
    } else {
        outdent_total(b, l0, n - 1, p) + outdent_cut(b, l0 + n - 1, p)
    }
}

proof fn lemma_lead_spaces_le(s: Seq<u8>)
    ensures
        lead_spaces(s) <= s.len(),
        forall|k: int| 0 <= k < lead_spaces(s) ==> s[k] == 32u8,
    decreases s.len(),
{
    if s.len() > 0 && s[0] == 32u8 {
        lemma_lead_spaces_le(s.drop_first());
        assert forall|k: int| 0 <= k < lead_spaces(s) implies s[k] == 32u8 by {
            if k > 0 {
                assert(s[k] == s.drop_first()[k - 1]);
            }
        }
    }
}

proof fn lemma_lead_spaces_at(s: Seq<u8>, n: int)
    requires
        0 <= n <= s.len(),
        forall|k: int| 0 <= k < n ==> s[k] == 32u8,
        n == s.len() || s[n] != 32u8,
    ensures
        lead_spaces(s) == n,
    decreases n,
{
    if n > 0 {
        assert forall|k: int| 0 <= k < n - 1 implies s.drop_first()[k] == 32u8 by {
            assert(s.drop_first()[k] == s[k + 1]);
        }
        if n < s.len() {
            assert(s.drop_first()[n - 1] == s[n]);
        }
        lemma_lead_spaces_at(s.drop_first(), n - 1);
    }
}

/// Where the next line starts, past the end for the last line.
pub open spec fn next_start(b: Seq<u8>, l: int) -> int {
    if l < line_starts_of(b).len() {
        line_starts_of(b)[l]
    } else {
        b.len() as int + 1
    }
}

pub open spec fn min_int(a: int, b: int) -> int {
    if a <= b {
        a
    } else {
        b
    }
}

pub open spec fn max_int(a: int, b: int) -> int {
    if a >= b {
        a
    } else {
        b
    }
}

/// Where line `l` starts and how much outdenting takes off it.
fn outdent_line(buf: &Buffer, l: usize) -> (r: (usize, usize))
    requires
        buf.wf(),
        l < line_starts_of(buf.bytes()).len(),
    ensures
        r.0 as int == line_starts_of(buf.bytes())[l as int],
        r.0 as int == line_start_of(buf.bytes(), l as int),
        r.1 as int == outdent_width(buf.bytes(), l as int),
        r.1 <= 2,
        r.0 + r.1 <= line_end_of(buf.bytes(), l as int),
        is_char_boundary(buf.bytes(), r.0 as int),
        is_char_boundary(buf.bytes(), (r.0 + r.1) as int),
{
    let ghost b = buf.bytes();
    proof {
        buf.lemma_wf();
        lemma_line_bounds(b, l as int);
    }
    let text = buf.line_text(l);
    let bytes = text.as_bytes();
    proof {
        crate::text::lemma_chars_of_bytes(text);
    }
    let mut ind: usize = 0;
    while ind < bytes.len() && bytes[ind] == 32u8
        invariant
            ind <= bytes@.len(),
            forall|k: int| 0 <= k < ind ==> bytes@[k] == 32u8,
        decreases bytes@.len() - ind,
    {
        ind += 1;
    }
    proof {
        lemma_lead_spaces_at(bytes@, ind as int);
        assert(bytes@ == line_bytes(b, l as int));
    }
    let remove: usize = if ind == 0 {
        0
    } else if ind % 2 == 0 {
        2
    } else {
        1
    };
    let start = buf.line_start(l);
    proof {
        if remove > 0 {
            assert(b[start + remove - 1] == 32u8) by {
                assert(bytes@[remove - 1] == b[start + remove - 1]);
            }
            crate::buffer::lemma_ascii_boundaries(b, start + remove - 1);
        }
    }
    (start, remove)
}

/// How far offset `p` moves back when `remove` bytes go at `start`.
fn cut_at(p: usize, start: usize, remove: usize) -> (r: usize)
    ensures
        r == (if p >= start + remove {
            remove as int
        } else if p > start {
            p - start
        } else {
            0
        }),
{
    if p >= start && p - start >= remove {
        remove
    } else if p > start {
        p - start
    } else {
        0
    }
}

/// Takes one indent unit off every line the selection touches (two spaces
/// from an even indent, one from an odd), keeping the selection on the same
/// text. Returns whether any line changed; when none did the buffer is left
/// as it was.
#[verifier::rlimit(40)]
pub fn indent_less(buf: &mut Buffer) -> (r: bool)
    requires
        old(buf).wf(),
    ensures
        ({
            let b = old(buf).bytes();
            let s = old(buf).sel();
            let l0 = first_line(b, s);
            let n = last_line(b, s) - l0 + 1;
            let spans = outdent_spans(b, l0, n);
            &&& r == (spans.len() > 0)
            &&& r ==> commanded(
                *old(buf),
                *final(buf),
                spans,
                Selection {
                    anchor: (s.anchor - outdent_total(b, l0, n, s.anchor as int)) as usize,
                    head: (s.head - outdent_total(b, l0, n, s.head as int)) as usize,
                },
            )
            &&& !r ==> *final(buf) == *old(buf)
        }),
{
    proof {
        buf.lemma_wf();
    }
    let ghost b = buf.bytes();
    let ghost ls = line_starts_of(b);
    let sel = buf.selection;
    let r = sel.range();
    let l0 = buf.line_of(r.start);
    let l1 = buf.line_of(r.end);
    proof {
        lemma_starts_upto(b, b.len());
        lemma_line_of_unique(b, r.start as int, l0 as int);
        lemma_line_of_unique(b, r.end as int, l1 as int);
    }
    let ghost base = ls[l0 as int];
    let total_len = buf.len();
    let count = buf.line_count();
    let mut edits: Vec<(Range<usize>, String)> = Vec::new();
    let mut cut_a: usize = 0;
    let mut cut_h: usize = 0;
    let mut l = l0;
    while l <= l1
        invariant
            b == buf.bytes(),
            buf.wf(),
            ls == line_starts_of(b),
            valid_utf8(b),
            l0 <= l <= l1 + 1,
            l1 < ls.len(),
            total_len == b.len(),
            count == ls.len(),
            base == ls[l0 as int],
            forall|i: int, j: int| 0 <= i < j < ls.len() ==> ls[i] < ls[j],
            forall|k: int| 0 <= k < ls.len() ==> 0 <= #[trigger] ls[k] <= b.len(),
            edits@.map_values(|e: (Range<usize>, String)| span_of(e)) == outdent_spans(
                b,
                l0 as int,
                l - l0,
            ),
            forall|k: int|
                0 <= k < edits@.len() ==> #[trigger] edits@[k].0.start >= base && edits@[k].0.end < next_start(
                    b,
                    l as int,
                ) && edits@[k].0.start <= edits@[k].0.end && is_char_boundary(b, edits@[k].0.start as int)
                    && is_char_boundary(b, edits@[k].0.end as int) && edits@[k].0.end <= b.len(),
            forall|k: int| 0 <= k < edits@.len() - 1 ==> edits@[k].0.end <= edits@[k + 1].0.start
                && edits@[k].0.start < edits@[k + 1].0.start,
            cut_a == outdent_total(b, l0 as int, l - l0, sel.anchor as int),
            cut_h == outdent_total(b, l0 as int, l - l0, sel.head as int),
            cut_a <= max_int(0, min_int(sel.anchor as int, next_start(b, l as int)) - base),
            cut_h <= max_int(0, min_int(sel.head as int, next_start(b, l as int)) - base),
        decreases l1 + 1 - l,
    {
        let (start, remove) = outdent_line(buf, l);
        let ghost before = edits@;
        if remove > 0 {
            edits.push((start..start + remove, String::new()));
        }
        let ca = cut_at(sel.anchor, start, remove);
        let ch = cut_at(sel.head, start, remove);
        proof {
            assert(ca == outdent_cut(b, l as int, sel.anchor as int));
            assert(ch == outdent_cut(b, l as int, sel.head as int));
            assert(line_end_of(b, l as int) < next_start(b, l + 1));
        }
        cut_a = cut_a + ca;
        cut_h = cut_h + ch;
        proof {
            assert(edits@.map_values(|e: (Range<usize>, String)| span_of(e)) =~= outdent_spans(
                b,
                l0 as int,
                l + 1 - l0,
            ));
        }
        l += 1;
    }
    if edits.len() == 0 {
        return false;
    }
    let ghost es = edits@;
    proof {
        assert(edits_fit(b, es));
        lemma_spans_agree(b, es, 0, 0);
        crate::buffer::lemma_fit_disjoint(b, es);
    }
    let new_sel = Selection { anchor: sel.anchor - cut_a, head: sel.head - cut_h };
    buf.edit_many(edits, new_sel, EditKind::Other);
    true
}

/// The last line a block command acts on: the selection's last line, or the
/// one before it when the selection ends right at that line's start.
pub open spec fn block_last(b: Seq<u8>, s: Selection) -> int {
    let l0 = first_line(b, s);
    let l1 = last_line(b, s);
    if l1 > l0 && sel_end(s) as int == line_start_of(b, l1) {
        l1 - 1
    } else {
        l1
    }
}

/// The first line the selection touches and the last line a block command
/// acts on.
pub fn block_lines(buf: &Buffer) -> (r: (usize, usize))
    requires
        buf.wf(),
    ensures
        r.0 as int == first_line(buf.bytes(), buf.sel()),
        r.1 as int == block_last(buf.bytes(), buf.sel()),
        r.0 <= r.1 < line_starts_of(buf.bytes()).len(),
        line_start_of(buf.bytes(), r.0 as int) <= sel_start(buf.sel()),
{
    proof {
        buf.lemma_wf();
    }
    let ghost b = buf.bytes();
    let sel = buf.selection;
    let r = sel.range();
    let l0 = buf.line_of(r.start);
    let l1 = buf.line_of(r.end);
    proof {
        lemma_starts_upto(b, b.len());
        lemma_line_of_unique(b, r.start as int, l0 as int);
        lemma_line_of_unique(b, r.end as int, l1 as int);
        if l0 > l1 {
            assert(line_starts_of(b)[l1 as int] < line_starts_of(b)[l0 as int]);
        }
    }
    if l1 > l0 && r.end == buf.line_start(l1) {
        (l0, l1 - 1)
    } else {
        (l0, l1)
    }
}

} // verus!
