//! Moving the cursor and deleting around it: up and down by lines keeping a
//! goal column, deleting to the start of the line, whole lines or words, and
//! selecting the next occurrence of the selection.
use crate::buffer::{clamp_spec, lemma_line_bounds, lemma_line_of_unique, line_end_of, line_of_spec, line_start_of, line_starts_of, word_class_at, Buffer, EditKind, Selection};
use crate::buffer::editing::{sel_end, sel_start};
use crate::buffer::typing::edited;
use crate::bytes::{bytes_at, occurs_at};
use crate::buffer::{word_left_spec, word_right_spec};
use crate::text::{byte_len, chars_in, next_boundary_spec, prev_boundary_spec, utf8};
use crate::unicode::{trim_start, trim_start_spec};
use vstd::prelude::*;
use vstd::utf8::*;

verus! {

proof fn lemma_clamp_mono(b: Seq<u8>, a: int, e: int)
    requires
        valid_utf8(b),
        0 <= a <= e,
    ensures
        clamp_spec(b, a) <= clamp_spec(b, e),
{
    crate::buffer::lemma_clamp_exists(b, a);
    crate::buffer::lemma_clamp_exists(b, e);
    let ca = clamp_spec(b, a);
    if ca > clamp_spec(b, e) {
        assert(is_char_boundary(b, ca));
    }
}

/// Deletes `start..end` as one step, nothing when it is empty. Says whether
/// it deleted.
pub fn delete_range(buf: &mut Buffer, start: usize, end: usize) -> (changed: bool)
    requires
        old(buf).wf(),
    ensures
        changed == (start < end),
        !changed ==> *final(buf) == *old(buf),
        changed ==> edited(*old(buf), *final(buf), start as int, end as int, Seq::empty(), EditKind::Delete),
{
    if start >= end {
        return false;
    }
    proof {
        old(buf).lemma_wf();
        lemma_clamp_mono(buf.bytes(), start as int, end as int);
        reveal_strlit("");
        assert(crate::text::bytes_of("") =~= Seq::<u8>::empty());
    }
    let _size = buf.len();
    buf.edit(start..end, "", EditKind::Delete);
    true
}

/// What deleting to the line start removes at a cursor at `pos`: back to
/// the start of its line, or the line break before it at the start of a
/// line.
pub open spec fn line_start_range(b: Seq<u8>, pos: int) -> (int, int) {
    let ls = line_start_of(b, line_of_spec(b, pos));
    if ls == pos {
        (prev_boundary_spec(b, pos), pos)
    } else {
        (ls, pos)
    }
}

/// Deletes the selection, or from the cursor back to the start of its line.
pub fn delete_line_start(buf: &mut Buffer) -> (changed: bool)
    requires
        old(buf).wf(),
        old(buf).sel().anchor == old(buf).sel().head ==> old(buf).sel().head <= old(buf).bytes().len()
            && is_char_boundary(old(buf).bytes(), old(buf).sel().head as int),
    ensures
        ({
            let s = old(buf).sel();
            let (a, e) = if s.anchor == s.head {
                line_start_range(old(buf).bytes(), s.head as int)
            } else {
                (sel_start(s) as int, sel_end(s) as int)
            };
            &&& changed == (a < e)
            &&& !changed ==> *final(buf) == *old(buf)
            &&& changed ==> edited(*old(buf), *final(buf), a, e, Seq::empty(), EditKind::Delete)
        }),
{
    proof {
        old(buf).lemma_wf();
    }
    let sel = buf.selection();
    if sel.is_empty() {
        let line = buf.line_of(sel.head);
        let ls = buf.line_start(line);
        proof {
            lemma_line_of_unique(buf.bytes(), sel.head as int, line as int);
        }
        if ls == sel.head {
            let p = buf.prev_char(sel.head);
            delete_range(buf, p, sel.head)
        } else {
            delete_range(buf, ls, sel.head)
        }
    } else {
        let r = sel.range();
        delete_range(buf, r.start, r.end)
    }
}

/// What deleting the selected lines removes: from the start of the first
/// line to the start of the line after the last, or, at the end of the
/// text, from the line break before the first line to the end.
pub open spec fn lines_range(b: Seq<u8>, s: Selection) -> (int, int) {
    let l0 = line_of_spec(b, sel_start(s) as int);
    let l1 = line_of_spec(b, sel_end(s) as int);
    let start = line_start_of(b, l0);
    let count = line_starts_of(b).len();
    if l1 + 1 < count {
        (start, line_start_of(b, l1 + 1))
    } else if l0 > 0 {
        (start - 1, b.len() as int)
    } else {
        (start, b.len() as int)
    }
}

/// Deletes every line the selection touches.
pub fn delete_line(buf: &mut Buffer) -> (changed: bool)
    requires
        old(buf).wf(),
    ensures
        ({
            let (a, e) = lines_range(old(buf).bytes(), old(buf).sel());
            &&& changed == (a < e)
            &&& !changed ==> *final(buf) == *old(buf)
            &&& changed ==> edited(*old(buf), *final(buf), a, e, Seq::empty(), EditKind::Delete)
        }),
{
    proof {
        old(buf).lemma_wf();
    }
    let ghost b = buf.bytes();
    let r = buf.selection().range();
    let l0 = buf.line_of(r.start);
    let l1 = buf.line_of(r.end);
    proof {
        lemma_line_of_unique(b, r.start as int, l0 as int);
        lemma_line_of_unique(b, r.end as int, l1 as int);
        crate::buffer::lemma_starts_upto(b, b.len());
    }
    let start = buf.line_start(l0);
    let count = buf.line_count();
    let len = buf.len();
    if l1 + 1 < count {
        let next = buf.line_start(l1 + 1);
        delete_range(buf, start, next)
    } else if l0 > 0 {
        proof {
            assert(line_starts_of(b)[l0 as int] >= 1);
        }
        delete_range(buf, start - 1, len)
    } else {
        delete_range(buf, start, len)
    }
}

/// A cursor `pos` on line `t` at column `goal`, or at the line's end when it
/// is shorter.
pub open spec fn at_column(b: Seq<u8>, t: int, goal: int, pos: int) -> bool {
    let ls = line_start_of(b, t);
    let le = line_end_of(b, t);
    let n = chars_in(b, ls, le).len();
    &&& ls <= pos <= le
    &&& is_char_boundary(b, pos)
    &&& chars_in(b, ls, pos).len() == (if goal < n {
        goal
    } else {
        n as int
    })
}

/// The selection a vertical move starts from: a selection moved by one
/// line without extending first collapses to its end in that direction.
pub open spec fn collapsed_for(s: Selection, lines: int, extend: bool) -> Selection {
    if !extend && s.anchor != s.head && (lines == 1 || lines == -1) {
        let t = if lines < 0 {
            sel_start(s)
        } else {
            sel_end(s)
        };
        Selection { anchor: t, head: t }
    } else {
        s
    }
}

/// Moves the cursor `lines` lines up (negative) or down, keeping the goal
/// column: to the start of the text above the first line and to its end
/// below the last; extending moves only the head.
pub fn vertical(buf: &mut Buffer, lines: isize, extend: bool)
    requires
        old(buf).wf(),
        lines > isize::MIN,
        ({
            let s = collapsed_for(old(buf).sel(), lines as int, extend);
            &&& s.head <= old(buf).bytes().len()
            &&& is_char_boundary(old(buf).bytes(), s.head as int)
            &&& line_starts_of(old(buf).bytes()).len() <= isize::MAX
            &&& line_starts_of(old(buf).bytes()).len() + lines <= isize::MAX
        }),
    ensures
        ({
            let b = old(buf).bytes();
            let s = collapsed_for(old(buf).sel(), lines as int, extend);
            let line = line_of_spec(b, s.head as int);
            let goal = match old(buf).goal() {
                Some(g) => g as int,
                None => chars_in(b, line_start_of(b, line), s.head as int).len() as int,
            };
            let t = line + lines;
            let pos = final(buf).sel().head as int;
            &&& final(buf).wf()
            &&& final(buf).bytes() == b
            &&& final(buf).undo_view() == old(buf).undo_view()
            &&& final(buf).redo_view() == old(buf).redo_view()
            &&& final(buf).goal() == Some(goal as usize)
            &&& final(buf).sel().anchor == (if extend {
                s.anchor
            } else {
                final(buf).sel().head
            })
            &&& (t < 0 ==> pos == 0)
            &&& (t >= line_starts_of(b).len() ==> pos == b.len())
            &&& (0 <= t < line_starts_of(b).len() ==> at_column(b, t, goal, pos))
        }),
{
    proof {
        old(buf).lemma_wf();
    }
    let sel = buf.selection();
    let one = lines == 1 || lines == -1;
    if !extend && !sel.is_empty() && one {
        let r = sel.range();
        let target = if lines < 0 {
            r.start
        } else {
            r.end
        };
        buf.selection = Selection::cursor(target);
    }
    let s = buf.selection();
    let head = s.head;
    let line = buf.line_of(head);
    proof {
        lemma_line_of_unique(buf.bytes(), head as int, line as int);
    }
    let goal = match buf.goal_column {
        Some(g) => g,
        None => buf.column_chars(head),
    };
    let target_line = line as isize + lines;
    let pos = if target_line < 0 {
        0
    } else if target_line as usize >= buf.line_count() {
        buf.len()
    } else {
        buf.offset_at_column(target_line as usize, goal)
    };
    if extend {
        buf.selection = Selection { anchor: s.anchor, head: pos };
    } else {
        buf.selection = Selection::cursor(pos);
    }
    buf.goal_column = Some(goal);
}

/// The first place at or after `from` where `n` occurs in `h`.
pub open spec fn is_first_occurrence(h: Seq<u8>, n: Seq<u8>, from: int, i: int) -> bool {
    &&& from <= i
    &&& occurs_at(h, n, i)
    &&& forall|j: int| from <= j < i ==> !occurs_at(h, n, j)
}

fn find_from(h: &[u8], n: &[u8], from: usize) -> (r: Option<usize>)
    ensures
        match r {
            Some(i) => is_first_occurrence(h@, n@, from as int, i as int),
            None => forall|j: int| from <= j ==> !occurs_at(h@, n@, j),
        },
{
    if n.len() > h.len() {
        return None;
    }
    if n.len() == 0 {
        if from <= h.len() {
            proof {
                assert(h@.subrange(from as int, from as int) =~= n@);
            }
            return Some(from);
        }
        return None;
    }
    let bound = h.len() - n.len() + 1;
    let mut i: usize = from;
    while i < bound
        invariant
            bound == h@.len() - n@.len() + 1,
            from <= i,
            forall|j: int| from <= j < i ==> !occurs_at(h@, n@, j),
        decreases bound - i,
    {
        if bytes_at(h, n, i) {
            return Some(i);
        }
        i += 1;
    }
    None
}

/// Selects the word at a cursor, or the next occurrence of the selected
/// text after it, wrapping round to the first.
pub fn select_next(buf: &mut Buffer)
    requires
        old(buf).wf(),
        old(buf).sel().head <= old(buf).bytes().len(),
        old(buf).sel().anchor <= old(buf).bytes().len(),
        is_char_boundary(old(buf).bytes(), old(buf).sel().head as int),
        is_char_boundary(old(buf).bytes(), old(buf).sel().anchor as int),
    ensures
        final(buf).wf(),
        final(buf).bytes() == old(buf).bytes(),
        final(buf).goal() == old(buf).goal(),
        final(buf).undo_view() == old(buf).undo_view(),
        final(buf).redo_view() == old(buf).redo_view(),
        ({
            let b = old(buf).bytes();
            let s = old(buf).sel();
            let f = final(buf).sel();
            if s.anchor == s.head {
                let line = line_of_spec(b, s.head as int);
                match word_class_at(b, s.head as int) {
                    None => f.anchor == s.head && f.head == s.head,
                    Some(cls) => {
                        &&& f.anchor as int == crate::buffer::back_run(
                            b,
                            line_start_of(b, line),
                            s.head as int,
                            crate::buffer::same_class(cls),
                        )
                        &&& f.head as int == crate::buffer::fwd_run(
                            b,
                            s.head as int,
                            crate::buffer::line_end_of(b, line),
                            crate::buffer::same_class(cls),
                        )
                    },
                }
            } else {
                let needle = b.subrange(sel_start(s) as int, sel_end(s) as int);
                &&& f.head == f.anchor + needle.len()
                &&& (is_first_occurrence(b, needle, sel_end(s) as int, f.anchor as int) || (
                (forall|j: int| sel_end(s) <= j ==> !occurs_at(b, needle, j)) && is_first_occurrence(
                    b,
                    needle,
                    0,
                    f.anchor as int,
                )))
            }
        }),
{
    proof {
        old(buf).lemma_wf();
    }
    let sel = buf.selection();
    if sel.is_empty() {
        let r = buf.word_range_at(sel.head);
        buf.selection = Selection { anchor: r.start, head: r.end };
        return;
    }
    let r = sel.range();
    let ghost b = buf.bytes();
    let text = buf.text();
    proof {
        crate::text::lemma_chars_of_bytes(text);
    }
    let needle = crate::text::substr(text, r.start, r.end);
    let hb = text.as_bytes();
    let nb = needle.as_bytes();
    proof {
        crate::text::lemma_chars_of_bytes(needle);
        assert(occurs_at(hb@, nb@, r.start as int)) by {
            assert(hb@.subrange(r.start as int, r.start + nb@.len()) =~= nb@);
        }
    }
    let after = find_from(hb, nb, r.end);
    let found = match after {
        Some(i) => i,
        None => match find_from(hb, nb, 0) {
            Some(i) => i,
            None => {
                proof {
                    assert(!occurs_at(hb@, nb@, r.start as int));
                }
                r.start
            },
        },
    };
    let total = hb.len();
    proof {
        assert(occurs_at(hb@, nb@, found as int));
        assert(found + nb@.len() <= total);
    }
    buf.selection = Selection { anchor: found, head: found + nb.len() };
}

/// Puts the cursor at `pos`, pulled back to a char boundary inside the
/// text; extending moves only the head.
pub fn move_to(buf: &mut Buffer, pos: usize, extend: bool)
    requires
        old(buf).wf(),
    ensures
        final(buf).wf(),
        final(buf).bytes() == old(buf).bytes(),
        final(buf).goal() == old(buf).goal(),
        final(buf).undo_view() == old(buf).undo_view(),
        final(buf).redo_view() == old(buf).redo_view(),
        final(buf).sel() == (Selection {
            anchor: if extend {
                old(buf).sel().anchor
            } else {
                clamp_spec(old(buf).bytes(), pos as int) as usize
            },
            head: clamp_spec(old(buf).bytes(), pos as int) as usize,
        }),
{
    let p = buf.clamp(pos);
    if extend {
        let anchor = buf.selection().anchor;
        buf.selection = Selection { anchor, head: p };
    } else {
        buf.selection = Selection::cursor(p);
    }
}

/// Where "go to line" puts the cursor: column `col` of line `line`
/// (`1`-based), or the end of a shorter line.
pub fn goto_offset(buf: &Buffer, line: usize, col: usize) -> (r: usize)
    requires
        buf.wf(),
        line >= 1,
    ensures
        ({
            let b = buf.bytes();
            let ls = line_start_of(b, line - 1);
            let le = line_end_of(b, line - 1);
            r == ls + if col < le - ls {
                col as int
            } else {
                le - ls
            }
        }),
{
    proof {
        buf.lemma_wf();
        let s = line_starts_of(buf.bytes());
        let l = if line - 1 < s.len() { line - 1 } else { s.len() - 1 };
        lemma_line_bounds(buf.bytes(), l);
        lemma_line_bounds(buf.bytes(), s.len() - 1);
        crate::buffer::lemma_starts_upto(buf.bytes(), buf.bytes().len());
    }
    let start = buf.line_start(line - 1);
    let end = buf.line_end(line - 1);
    let len = crate::text::byte_len(buf.line_text(line - 1));
    let _size = buf.len();
    proof {
        assert(start <= end <= _size);
        assert(len == end - start);
    }
    if col < len {
        start + col
    } else {
        start + len
    }
}

// ─── Newline ───────────────────────────────────────────────────────────────

/// A line break and `indent` spaces.
pub open spec fn newline_text(indent: nat) -> Seq<char> {
    seq!['\n'] + Seq::new(indent, |i: int| ' ')
}

/// Where a run of spaces starting at `e` ends.
pub open spec fn spaces_end(b: Seq<u8>, e: int) -> int
    decreases b.len() - e,
{
    if 0 <= e < b.len() && b[e] == 0x20u8 {
        spaces_end(b, e + 1)
    } else {
        e
    }
}

/// Where the newline command cuts before the selection: at the selection
/// when only white space stands before it on its line, else after the last
/// char on the line that is not white space.
pub open spec fn newline_cut(b: Seq<u8>, s: int) -> int {
    let ls = line_start_of(b, line_of_spec(b, s));
    let before = chars_in(b, ls, s);
    if crate::unicode::trim_spec(before).len() == 0 {
        s
    } else {
        ls + crate::text::utf8(crate::unicode::trim_end_spec(before)).len()
    }
}

proof fn lemma_ascii_utf8_len(s: Seq<char>)
    requires
        forall|k: int| 0 <= k < s.len() ==> (#[trigger] s[k] as u32) < 0x80,
    ensures
        crate::text::utf8(s).len() == s.len(),
    decreases s.len(),
{
    if s.len() > 0 {
        assert forall|k: int| 0 <= k < s.drop_first().len() implies (#[trigger] s.drop_first()[k] as u32) < 0x80 by {
            assert(s.drop_first()[k] == s[k + 1]);
        }
        lemma_ascii_utf8_len(s.drop_first());
        assert((s[0] as u32) < 0x80);
    }
}

/// The UTF-8 length of the text before trailing white space.
fn trimmed_end_len(before: &str) -> (r: usize)
    ensures
        r == crate::text::utf8(crate::unicode::trim_end_spec(before@)).len(),
        r <= crate::text::bytes_of(before).len(),
{
    let chars = crate::text::chars_vec(before);
    let mut k = chars.len();
    while k > 0 && crate::unicode::is_whitespace(chars[k - 1])
        invariant
            chars@ == before@,
            k <= chars@.len(),
            forall|j: int| k <= j < chars@.len() ==> crate::unicode::is_whitespace_spec(#[trigger] chars@[j]),
        decreases k,
    {
        k -= 1;
    }
    proof {
        crate::unicode::lemma_trim_end_at(before@, k as int);
    }
    let mut kept = String::new();
    let mut i: usize = 0;
    while i < k
        invariant
            chars@ == before@,
            k <= chars@.len(),
            i <= k,
            kept@ == chars@.take(i as int),
        decreases k - i,
    {
        crate::text::push_char(&mut kept, chars[i]);
        proof {
            assert(chars@.take(i + 1) =~= chars@.take(i as int).push(chars@[i as int]));
        }
        i += 1;
    }
    proof {
        crate::text::lemma_utf8_concat(chars@.take(k as int), chars@.skip(k as int));
        assert(chars@.take(k as int) + chars@.skip(k as int) =~= chars@);
    }
    crate::text::byte_len(kept.as_str())
}

/// Splits the line at the selection: drops the white space before the break
/// (unless only white space stands before it on its line) and the spaces
/// after it, and starts the new line with `indent` spaces.
pub fn newline(buf: &mut Buffer, indent: usize)
    requires
        old(buf).wf(),
        old(buf).sel().anchor <= old(buf).bytes().len(),
        old(buf).sel().head <= old(buf).bytes().len(),
        is_char_boundary(old(buf).bytes(), old(buf).sel().anchor as int),
        is_char_boundary(old(buf).bytes(), old(buf).sel().head as int),
        old(buf).bytes().len() + indent + 1 <= usize::MAX,
    ensures
        ({
            let b = old(buf).bytes();
            let s = old(buf).sel();
            edited(
                *old(buf),
                *final(buf),
                newline_cut(b, sel_start(s) as int),
                spaces_end(b, sel_end(s) as int),
                crate::text::utf8(newline_text(indent as nat)),
                EditKind::Other,
            )
        }),
{
    proof {
        old(buf).lemma_wf();
    }
    let ghost b = buf.bytes();
    let range = buf.selection().range();
    let line = buf.line_of(range.start);
    let ls = buf.line_start(line);
    proof {
        lemma_line_of_unique(b, range.start as int, line as int);
        lemma_line_bounds(b, line as int);
    }
    let text = buf.text();
    proof {
        crate::text::lemma_chars_of_bytes(text);
    }
    let before = crate::text::substr(text, ls, range.start);
    let blank = crate::unicode::trim(before).as_str().is_empty();
    let start = if blank {
        range.start
    } else {
        ls + trimmed_end_len(before)
    };
    let bytes = text.as_bytes();
    let n = bytes.len();
    let mut end = range.end;
    while end < n && bytes[end] == 32u8
        invariant
            bytes@ == b,
            n == b.len(),
            range.end <= end <= n,
            spaces_end(b, end as int) == spaces_end(b, range.end as int),
        decreases n - end,
    {
        end += 1;
    }
    let mut ins = String::new();
    crate::text::push_char(&mut ins, '\n');
    let mut i: usize = 0;
    while i < indent
        invariant
            i <= indent,
            ins@ == seq!['\n'] + Seq::new(i as nat, |j: int| ' '),
        decreases indent - i,
    {
        crate::text::push_char(&mut ins, ' ');
        proof {
            assert(seq!['\n'] + Seq::new((i + 1) as nat, |j: int| ' ') =~= (seq!['\n'] + Seq::new(
                i as nat,
                |j: int| ' ',
            )).push(' '));
        }
        i += 1;
    }
    proof {
        assert(ins@ == newline_text(indent as nat));
        assert forall|k: int| 0 <= k < ins@.len() implies (#[trigger] ins@[k] as u32) < 0x80 by {
            if k > 0 {
                assert(ins@[k] == ' ');
            }
        }
        lemma_ascii_utf8_len(ins@);
        lemma_clamp_mono(b, start as int, end as int);
    }
    let _size = buf.len();
    buf.edit(start..end, ins.as_str(), EditKind::Other);
}

// ─── Line start, whole lines, deleting forward and by words ────────────────

/// Where "line start" goes from `head`: to the first char after the line's
/// leading white space, or to the very start of the line when already there
/// or when the line is all white space.
pub open spec fn line_start_target_spec(b: Seq<u8>, head: int) -> int {
    let line = line_of_spec(b, head);
    let ls = line_start_of(b, line);
    let lt = chars_in(b, ls, line_end_of(b, line));
    let indent = utf8(lt).len() - utf8(trim_start_spec(lt)).len();
    if head == ls + indent || indent == utf8(lt).len() {
        ls
    } else {
        ls + indent
    }
}

/// Where "line start" moves the cursor from `head`.
pub fn line_start_target(buf: &Buffer, head: usize) -> (r: usize)
    requires
        buf.wf(),
    ensures
        r == line_start_target_spec(buf.bytes(), head as int),
{
    proof {
        buf.lemma_wf();
    }
    let line = buf.line_of(head);
    proof {
        lemma_line_of_unique(buf.bytes(), head as int, line as int);
    }
    let ls = buf.line_start(line);
    let text = buf.line_text(line);
    let rest = trim_start(text);
    let total = byte_len(text);
    let kept = byte_len(rest.as_str());
    let n = buf.len();
    proof {
        let b = buf.bytes();
        let l = line as int;
        lemma_line_bounds(b, l);
        vstd::utf8::encode_utf8_decode_utf8(text@);
        assert(text@ == chars_in(b, line_start_of(b, l), line_end_of(b, l)));
        lemma_trim_start_suffix(text@);
        crate::text::lemma_utf8_concat(text@.take(text@.len() - rest@.len()), rest@);
        assert(text@.take(text@.len() - rest@.len()) + rest@ =~= text@);
        assert(line_start_of(b, l) == line_starts_of(b)[l]);
        assert(ls + total <= n);
        assert(kept <= total);
    }
    let indent = total - kept;
    if head == ls + indent || indent == total {
        ls
    } else {
        ls + indent
    }
}

/// `trim_start_spec(s)` is what follows some prefix of `s`.
proof fn lemma_trim_start_suffix(s: Seq<char>)
    ensures
        trim_start_spec(s).len() <= s.len(),
        s.skip(s.len() - trim_start_spec(s).len()) == trim_start_spec(s),
    decreases s.len(),
{
    if s.len() > 0 && crate::unicode::is_whitespace_spec(s[0]) {
        lemma_trim_start_suffix(s.drop_first());
        assert(s.skip(s.len() - trim_start_spec(s).len()) =~= s.drop_first().skip(
            s.drop_first().len() - trim_start_spec(s.drop_first()).len(),
        ));
    } else {
        assert(s.skip(0) =~= s);
    }
}

/// What "select line" selects: from the start of the selection's first line
/// to the start of the line after its last, or to the end of the text.
pub open spec fn select_line_spec(b: Seq<u8>, s: Selection) -> Selection {
    let l0 = line_of_spec(b, sel_start(s) as int);
    let l1 = line_of_spec(b, sel_end(s) as int);
    let end = if l1 + 1 < line_starts_of(b).len() {
        line_start_of(b, l1 + 1)
    } else {
        b.len() as int
    };
    Selection { anchor: line_start_of(b, l0) as usize, head: end as usize }
}

/// Selects every line the selection touches, line breaks included.
pub fn select_line(buf: &mut Buffer)
    requires
        old(buf).wf(),
    ensures
        *final(buf) == old(buf).with_selection(select_line_spec(old(buf).bytes(), old(buf).sel())),
{
    proof {
        old(buf).lemma_wf();
    }
    let r = buf.selection().range();
    let l0 = buf.line_of(r.start);
    let l1 = buf.line_of(r.end);
    proof {
        lemma_line_of_unique(buf.bytes(), r.start as int, l0 as int);
        lemma_line_of_unique(buf.bytes(), r.end as int, l1 as int);
    }
    let count = buf.line_count();
    let end = if l1 < count - 1 {
        buf.line_start(l1 + 1)
    } else {
        buf.len()
    };
    let start = buf.line_start(l0);
    buf.set_selection(Selection { anchor: start, head: end });
}

/// What "delete" removes: the selection, or the char after the cursor.
pub open spec fn forward_range(b: Seq<u8>, s: Selection) -> (int, int) {
    if s.anchor == s.head {
        (s.head as int, next_boundary_spec(b, s.head as int))
    } else {
        (sel_start(s) as int, sel_end(s) as int)
    }
}

/// Deletes the selection, or the char after the cursor.
pub fn delete_forward(buf: &mut Buffer) -> (changed: bool)
    requires
        old(buf).wf(),
        old(buf).sel().anchor == old(buf).sel().head ==> old(buf).sel().head <= old(buf).bytes().len()
            && is_char_boundary(old(buf).bytes(), old(buf).sel().head as int),
    ensures
        ({
            let (a, e) = forward_range(old(buf).bytes(), old(buf).sel());
            &&& changed == (a < e)
            &&& !changed ==> *final(buf) == *old(buf)
            &&& changed ==> edited(*old(buf), *final(buf), a, e, Seq::empty(), EditKind::Delete)
        }),
{
    let sel = buf.selection();
    if sel.is_empty() {
        let e = buf.next_char(sel.head);
        delete_range(buf, sel.head, e)
    } else {
        let r = sel.range();
        delete_range(buf, r.start, r.end)
    }
}

/// What "delete word left" removes: the selection, or back to the start of
/// the word before the cursor.
pub open spec fn word_left_range(b: Seq<u8>, s: Selection) -> (int, int) {
    if s.anchor == s.head {
        (word_left_spec(b, s.head as int), s.head as int)
    } else {
        (sel_start(s) as int, sel_end(s) as int)
    }
}

/// Deletes the selection, or back to the start of the word before the cursor.
pub fn delete_word_left(buf: &mut Buffer) -> (changed: bool)
    requires
        old(buf).wf(),
        old(buf).sel().anchor == old(buf).sel().head ==> old(buf).sel().head <= old(buf).bytes().len()
            && is_char_boundary(old(buf).bytes(), old(buf).sel().head as int),
    ensures
        ({
            let (a, e) = word_left_range(old(buf).bytes(), old(buf).sel());
            &&& changed == (a < e)
            &&& !changed ==> *final(buf) == *old(buf)
            &&& changed ==> edited(*old(buf), *final(buf), a, e, Seq::empty(), EditKind::Delete)
        }),
{
    let sel = buf.selection();
    if sel.is_empty() {
        let a = buf.word_left(sel.head);
        delete_range(buf, a, sel.head)
    } else {
        let r = sel.range();
        delete_range(buf, r.start, r.end)
    }
}

/// What "delete word right" removes: the selection, or on to the end of the
/// word after the cursor.
pub open spec fn word_right_range(b: Seq<u8>, s: Selection) -> (int, int) {
    if s.anchor == s.head {
        (s.head as int, word_right_spec(b, s.head as int))
    } else {
        (sel_start(s) as int, sel_end(s) as int)
    }
}

/// Deletes the selection, or on to the end of the word after the cursor.
pub fn delete_word_right(buf: &mut Buffer) -> (changed: bool)
    requires
        old(buf).wf(),
        old(buf).sel().anchor == old(buf).sel().head ==> old(buf).sel().head <= old(buf).bytes().len()
            && is_char_boundary(old(buf).bytes(), old(buf).sel().head as int),
    ensures
        ({
            let (a, e) = word_right_range(old(buf).bytes(), old(buf).sel());
            &&& changed == (a < e)
            &&& !changed ==> *final(buf) == *old(buf)
            &&& changed ==> edited(*old(buf), *final(buf), a, e, Seq::empty(), EditKind::Delete)
        }),
{
    let sel = buf.selection();
    if sel.is_empty() {
        let e = buf.word_right(sel.head);
        delete_range(buf, sel.head, e)
    } else {
        let r = sel.range();
        delete_range(buf, r.start, r.end)
    }
}

} // verus!
