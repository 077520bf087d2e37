//! Moving and copying whole lines up and down.
use super::editing::{block_last, block_lines, commanded, first_line, lemma_spans_agree, span_of};
use crate::buffer::{edits_fit, lemma_line_bounds, lemma_starts_upto, line_end_of, line_start_of, line_starts_of, Buffer, EditKind, Selection};
use crate::text::{bytes_of, push_char, substr, utf8};
use std::ops::Range;
use vstd::prelude::*;
use vstd::string::StringExecFns;
use vstd::utf8::*;

verus! {

broadcast use vstd::string::group_string_axioms;

// ─── Moving and copying lines ──────────────────────────────────────────────

/// The whole lines a block command acts on, without the last newline.
pub open spec fn block_bytes(b: Seq<u8>, s: Selection) -> Seq<u8> {
    b.subrange(line_start_of(b, first_line(b, s)), line_end_of(b, block_last(b, s)))
}

/// Moving the block is possible: there is a line above it to swap with
/// (moving up) or one below it (moving down).
pub open spec fn can_move(b: Seq<u8>, s: Selection, up: bool) -> bool {
    if up {
        first_line(b, s) > 0
    } else {
        block_last(b, s) + 1 < line_starts_of(b).len()
    }
}

/// The edit moving or copying the block makes, and how far the selection
/// moves with it (negative: up).
pub open spec fn move_edit(b: Seq<u8>, s: Selection, up: bool, copy: bool) -> ((int, int, Seq<u8>), int) {
    let l0 = first_line(b, s);
    let l1 = block_last(b, s);
    let bs = line_start_of(b, l0);
    let be = line_end_of(b, l1);
    let block = block_bytes(b, s);
    if copy {
        if up {
            ((bs, bs, block.push(10u8)), 0)
        } else {
            ((be, be, seq![10u8] + block), block.len() as int + 1)
        }
    } else if up {
        let ps = line_start_of(b, l0 - 1);
        let prev = b.subrange(ps, bs - 1);
        ((ps, be, block.push(10u8) + prev), -(prev.len() + 1))
    } else {
        let ne = line_end_of(b, l1 + 1);
        let next = b.subrange(be + 1, ne);
        ((bs, ne, next.push(10u8) + block), next.len() as int + 1)
    }
}

proof fn lemma_newline_utf8()
    ensures
        utf8(seq!['\n']) == seq![10u8],
{
    is_ascii_chars_encode_utf8(seq!['\n']);
    assert(utf8(seq!['\n']) =~= seq![10u8]);
}

/// The edit and new selection a move or copy makes, or `None` when a move
/// has no neighbour line on that side.
fn move_plan(buf: &Buffer, up: bool, copy: bool) -> (r: Option<(Range<usize>, String, Selection)>)
    requires
        buf.wf(),
        buf.sel().anchor + buf.bytes().len() + 1 <= usize::MAX,
        buf.sel().head + buf.bytes().len() + 1 <= usize::MAX,
    ensures
        r is Some == (copy || can_move(buf.bytes(), buf.sel(), up)),
        r matches Some(plan) ==> span_of((plan.0, plan.1)) == move_edit(buf.bytes(), buf.sel(), up, copy).0,
        r matches Some(plan) ==> plan.0.start <= plan.0.end <= buf.bytes().len(),
        r matches Some(plan) ==> is_char_boundary(buf.bytes(), plan.0.start as int),
        r matches Some(plan) ==> is_char_boundary(buf.bytes(), plan.0.end as int),
        r matches Some(plan) ==> plan.2 == (Selection {
            anchor: (buf.sel().anchor + move_edit(buf.bytes(), buf.sel(), up, copy).1) as usize,
            head: (buf.sel().head + move_edit(buf.bytes(), buf.sel(), up, copy).1) as usize,
        }),
{
    proof {
        buf.lemma_wf();
        lemma_newline_utf8();
    }
    let ghost b = buf.bytes();
    let sel = buf.selection;
    let (l0, l1) = block_lines(buf);
    proof {
        lemma_starts_upto(b, b.len());
        lemma_line_bounds(b, l0 as int);
        lemma_line_bounds(b, l1 as int);
    }
    let block_start = buf.line_start(l0);
    let block_end = buf.line_end(l1);
    let text = buf.text();
    let count = buf.line_count();
    assert(block_start <= block_end) by {
        if l0 < l1 {
            assert(line_starts_of(b)[l0 as int] < line_starts_of(b)[l1 as int]);
        }
    }
    let block = substr(text, block_start, block_end);
    let mut new_text = String::new();
    if copy {
        if up {
            new_text.append(block);
            push_char(&mut new_text, '\n');
            proof {
                crate::text::lemma_utf8_concat(block@, seq!['\n']);
                assert(new_text@ =~= block@ + seq!['\n']);
                assert(utf8(new_text@) =~= bytes_of(block).push(10u8));
            }
            Some((block_start..block_start, new_text, sel))
        } else {
            push_char(&mut new_text, '\n');
            new_text.append(block);
            proof {
                crate::text::lemma_utf8_concat(seq!['\n'], block@);
                assert(new_text@ =~= seq!['\n'] + block@);
                assert(utf8(new_text@) =~= seq![10u8] + bytes_of(block));
            }
            let shift = block_end - block_start + 1;
            Some((block_end..block_end, new_text, Selection { anchor: sel.anchor + shift, head: sel.head + shift }))
        }
    } else if up {
        if l0 == 0 {
            return None;
        }
        let prev_start = buf.line_start(l0 - 1);
        proof {
            lemma_line_bounds(b, l0 - 1);
            assert(line_starts_of(b)[l0 - 1] < line_starts_of(b)[l0 as int]);
            assert(line_end_of(b, l0 - 1) == block_start - 1);
        }
        let prev = substr(text, prev_start, block_start - 1);
        new_text.append(block);
        push_char(&mut new_text, '\n');
        new_text.append(prev);
        proof {
            crate::text::lemma_utf8_concat(block@, seq!['\n']);
            crate::text::lemma_utf8_concat(block@.push('\n'), prev@);
            assert(block@ + seq!['\n'] =~= block@.push('\n'));
            assert(new_text@ =~= block@.push('\n') + prev@);
            assert(utf8(new_text@) =~= bytes_of(block).push(10u8) + bytes_of(prev));
        }
        let shift = block_start - prev_start;
        Some((prev_start..block_end, new_text, Selection { anchor: sel.anchor - shift, head: sel.head - shift }))
    } else {
        if l1 + 1 >= count {
            return None;
        }
        let next_end = buf.line_end(l1 + 1);
        proof {
            lemma_line_bounds(b, l1 + 1);
            assert(line_start_of(b, l1 + 1) == block_end + 1);
        }
        let next = substr(text, block_end + 1, next_end);
        new_text.append(next);
        push_char(&mut new_text, '\n');
        new_text.append(block);
        proof {
            crate::text::lemma_utf8_concat(next@, seq!['\n']);
            crate::text::lemma_utf8_concat(next@.push('\n'), block@);
            assert(next@ + seq!['\n'] =~= next@.push('\n'));
            assert(new_text@ =~= next@.push('\n') + block@);
            assert(utf8(new_text@) =~= bytes_of(next).push(10u8) + bytes_of(block));
        }
        let shift = next_end - block_end;
        Some((block_start..next_end, new_text, Selection { anchor: sel.anchor + shift, head: sel.head + shift }))
    }
}

/// Moves the lines the selection touches up or down past their neighbour,
/// or copies them above or below themselves, keeping the selection on the
/// same text. Returns whether anything changed: a move with no neighbour
/// line on that side changes nothing.
pub fn move_lines(buf: &mut Buffer, up: bool, copy: bool) -> (r: bool)
    requires
        old(buf).wf(),
        old(buf).sel().anchor + old(buf).bytes().len() + 1 <= usize::MAX,
        old(buf).sel().head + old(buf).bytes().len() + 1 <= usize::MAX,
    ensures
        ({
            let b = old(buf).bytes();
            let s = old(buf).sel();
            let (span, d) = move_edit(b, s, up, copy);
            &&& r == (copy || can_move(b, s, up))
            &&& !r ==> *final(buf) == *old(buf)
            &&& r ==> commanded(
                *old(buf),
                *final(buf),
                seq![span],
                Selection { anchor: (s.anchor + d) as usize, head: (s.head + d) as usize },
            )
        }),
{
    let ghost b = buf.bytes();
    match move_plan(buf, up, copy) {
        None => false,
        Some((range, text, new_sel)) => {
            let mut edits: Vec<(Range<usize>, String)> = Vec::new();
            edits.push((range, text));
            proof {
                assert(edits@.map_values(|e: (Range<usize>, String)| span_of(e)) =~= seq![
                    move_edit(b, old(buf).sel(), up, copy).0,
                ]);
                assert(edits_fit(b, edits@));
                lemma_spans_agree(b, edits@, 0, 0);
                crate::buffer::lemma_fit_disjoint(b, edits@);
            }
            buf.edit_many(edits, new_sel, EditKind::Other);
            true
        },
    }
}

} // verus!
