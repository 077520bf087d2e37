//! Comment toggling: `-- ` in at the smallest indent, or out again.
use super::editing::{block_last, commanded, first_line, lemma_spans_agree, line_bytes, max_int, min_int, span_of};
use crate::buffer::{edits_fit, lemma_line_bounds, lemma_starts_upto, line_end_of, line_start_of, line_starts_of, Buffer, EditKind, Selection};
use crate::text::{bytes_of, byte_len, chars_vec, lemma_boundary_concat_back, lemma_utf8_concat, push_char, utf8};
use crate::unicode::{is_whitespace, is_whitespace_spec, lemma_trim_start_at, trim, trim_spec, trim_start_spec};
use std::ops::Range;
use vstd::prelude::*;
use vstd::string::StringExecFns;
use vstd::utf8::*;

verus! {

broadcast use vstd::string::group_string_axioms;

// ─── Comment toggling ──────────────────────────────────────────────────────

/// The chars of line `l`.
pub open spec fn line_chars(b: Seq<u8>, l: int) -> Seq<char> {
    decode_utf8(line_bytes(b, l))
}

/// The line holds nothing but white space.
pub open spec fn is_blank(b: Seq<u8>, l: int) -> bool {
    trim_spec(line_chars(b, l)).len() == 0
}

/// The bytes of a line's leading white space.
pub open spec fn line_indent(b: Seq<u8>, l: int) -> int {
    line_bytes(b, l).len() - utf8(trim_start_spec(line_chars(b, l))).len()
}

/// After its leading white space the line starts with `--`.
pub open spec fn is_commented(b: Seq<u8>, l: int) -> bool {
    let lb = line_bytes(b, l);
    let i = line_indent(b, l);
    i + 2 <= lb.len() && lb[i] == 45u8 && lb[i + 1] == 45u8
}

/// A space follows the `--`.
pub open spec fn is_spaced(b: Seq<u8>, l: int) -> bool {
    let lb = line_bytes(b, l);
    let i = line_indent(b, l);
    i + 2 < lb.len() && lb[i + 2] == 32u8
}

/// The non-blank lines among the first `n` from `l0`.
pub open spec fn targets(b: Seq<u8>, l0: int, n: int) -> Seq<int>
    decreases n,
{
    if n <= 0 {
        Seq::empty()
    } else if is_blank(b, l0 + n - 1) {
        targets(b, l0, n - 1)
    } else {
        targets(b, l0, n - 1).push(l0 + n - 1)
    }
}

pub open spec fn all_commented(b: Seq<u8>, ts: Seq<int>) -> bool {
    forall|i: int| 0 <= i < ts.len() ==> is_commented(b, #[trigger] ts[i])
}

/// The smallest indent among the lines.
pub open spec fn min_indent(b: Seq<u8>, ts: Seq<int>) -> int
    decreases ts.len(),
{
    if ts.len() == 0 {
        0
    } else if ts.len() == 1 {
        line_indent(b, ts[0])
    } else {
        min_int(min_indent(b, ts.drop_last()), line_indent(b, ts.last()))
    }
}

/// Where the edit on line `l` goes, and how much text it adds (negative:
/// removes).
pub open spec fn comment_edit(b: Seq<u8>, l: int, uncomment: bool, m: int) -> (int, int) {
    if uncomment {
        (line_start_of(b, l) + line_indent(b, l), if is_spaced(b, l) {
            -3
        } else {
            -2
        })
    } else {
        (line_start_of(b, l) + m, 3)
    }
}

/// One span per target line: the `--` (and a following space) taken out
/// when every target is commented, else `-- ` put in at the smallest indent.
pub open spec fn comment_spans(b: Seq<u8>, ts: Seq<int>) -> Seq<(int, int, Seq<u8>)> {
    let uncomment = all_commented(b, ts);
    let m = min_indent(b, ts);
    Seq::new(
        ts.len(),
        |i: int|
            {
                let (at, d) = comment_edit(b, ts[i], uncomment, m);
                if uncomment {
                    (at, at - d, Seq::<u8>::empty())
                } else {
                    (at, at, utf8(seq!['-', '-', ' ']))
                }
            },
    )
}

/// How offset `p` moves over the first `n` edits: past each that lies before
/// it, and past an insertion right at it.
pub open spec fn comment_moves(b: Seq<u8>, ts: Seq<int>, n: int, p: int) -> int
    decreases n,
{
    if n <= 0 {
        0
    } else {
        let (at, d) = comment_edit(b, ts[n - 1], all_commented(b, ts), min_indent(b, ts));
        comment_moves(b, ts, n - 1, p) + if p > at || (p == at && d > 0) {
            d
        } else {
            0
        }
    }
}

/// Where `p` ends up, never before the start of the text.
pub open spec fn comment_shift(b: Seq<u8>, ts: Seq<int>, p: int) -> usize {
    max_int(0, p + comment_moves(b, ts, ts.len() as int, p)) as usize
}

/// `-- ` can go in at the smallest indent of every target line: that point
/// is a char boundary (it is not where the indent of some line is made of
/// wider white space than another's).
pub open spec fn comment_fits(b: Seq<u8>, ts: Seq<int>) -> bool {
    all_commented(b, ts) || forall|i: int|
        0 <= i < ts.len() ==> is_char_boundary(b, line_start_of(b, #[trigger] ts[i]) + min_indent(b, ts))
}

proof fn lemma_line_boundary(b: Seq<u8>, l: int, k: int)
    requires
        valid_utf8(b),
        0 <= l < line_starts_of(b).len(),
        0 <= k <= line_bytes(b, l).len(),
        valid_utf8(line_bytes(b, l)),
        is_char_boundary(line_bytes(b, l), k),
    ensures
        is_char_boundary(b, line_start_of(b, l) + k),
{
    lemma_line_bounds(b, l);
    let lb = line_bytes(b, l);
    if k < lb.len() {
        is_char_boundary_iff_not_is_continuation_byte(lb, k);
        is_char_boundary_iff_not_is_continuation_byte(b, line_start_of(b, l) + k);
        assert(lb[k] == b[line_start_of(b, l) + k]);
    }
}

/// What comment toggling needs to know of line `l`.
struct LineInfo {
    start: usize,
    blank: bool,
    indent: usize,
    commented: bool,
    spaced: bool,
}

fn line_info(buf: &Buffer, l: usize) -> (r: LineInfo)
    requires
        buf.wf(),
        l < line_starts_of(buf.bytes()).len(),
    ensures
        r.start as int == line_start_of(buf.bytes(), l as int),
        r.blank == is_blank(buf.bytes(), l as int),
        r.indent as int == line_indent(buf.bytes(), l as int),
        r.commented == is_commented(buf.bytes(), l as int),
        r.spaced == is_spaced(buf.bytes(), l as int),
        0 <= r.indent <= line_bytes(buf.bytes(), l as int).len(),
        r.start + r.indent <= line_end_of(buf.bytes(), l as int) <= buf.bytes().len(),
        r.commented ==> r.start + r.indent + 2 <= line_end_of(buf.bytes(), l as int),
        r.commented && r.spaced ==> r.start + r.indent + 3 <= line_end_of(buf.bytes(), l as int),
        line_end_of(buf.bytes(), l as int) < crate::buffer::editing::next_start(buf.bytes(), l + 1),
        is_char_boundary(buf.bytes(), r.start + r.indent),
        r.commented ==> is_char_boundary(buf.bytes(), r.start + r.indent + 2),
        r.commented && r.spaced ==> is_char_boundary(buf.bytes(), r.start + r.indent + 3),
{
    let ghost b = buf.bytes();
    proof {
        buf.lemma_wf();
        lemma_line_bounds(b, l as int);
    }
    let text = buf.line_text(l);
    proof {
        crate::text::lemma_chars_of_bytes(text);
        assert(bytes_of(text) == line_bytes(b, l as int));
        assert(text@ == line_chars(b, l as int));
    }
    let blank = trim(text).as_str().is_empty();
    let chars = chars_vec(text);
    let mut k: usize = 0;
    while k < chars.len() && is_whitespace(chars[k])
        invariant
            k <= chars@.len(),
            forall|j: int| 0 <= j < k ==> is_whitespace_spec(#[trigger] chars@[j]),
        decreases chars@.len() - k,
    {
        k += 1;
    }
    let mut rest = String::new();
    let mut i = k;
    while i < chars.len()
        invariant
            k <= i <= chars@.len(),
            rest@ == chars@.subrange(k as int, i as int),
        decreases chars@.len() - i,
    {
        push_char(&mut rest, chars[i]);
        proof {
            assert(rest@ =~= chars@.subrange(k as int, i + 1));
        }
        i += 1;
    }
    let total = byte_len(text);
    let tail = byte_len(rest.as_str());
    proof {
        lemma_trim_start_at(chars@, k as int);
        assert(chars@.subrange(k as int, chars@.len() as int) =~= chars@.skip(k as int));
        let pre = chars@.take(k as int);
        let post = chars@.skip(k as int);
        assert(chars@ =~= pre + post);
        lemma_utf8_concat(pre, post);
        encode_utf8_valid_utf8(pre);
        encode_utf8_valid_utf8(post);
        lemma_boundary_concat_back(utf8(pre), utf8(post));
        assert(line_bytes(b, l as int) == utf8(pre) + utf8(post));
        lemma_line_boundary(b, l as int, utf8(pre).len() as int);
    }
    let indent = total - tail;
    let start = buf.line_start(l);
    let bytes = text.as_bytes();
    let n = bytes.len();
    let commented = n >= 2 && indent <= n - 2 && bytes[indent] == 45u8 && bytes[indent + 1] == 45u8;
    let spaced = n >= 3 && indent < n - 2 && bytes[indent + 2] == 32u8;
    proof {
        let lb = line_bytes(b, l as int);
        lemma_starts_upto(b, b.len());
        if commented {
            assert(b[start + indent + 1] == lb[indent + 1]);
            crate::buffer::lemma_ascii_boundaries(b, start + indent + 1);
            if spaced {
                assert(b[start + indent + 2] == lb[indent + 2]);
                crate::buffer::lemma_ascii_boundaries(b, start + indent + 2);
            }
        }
    }
    LineInfo { start, blank, indent, commented, spaced }
}

fn dashes() -> (r: String)
    ensures
        r@ == seq!['-', '-', ' '],
{
    let mut s = String::new();
    s.append("-- ");
    proof {
        reveal_strlit("-- ");
        assert(s@ =~= seq!['-', '-', ' ']);
    }
    s
}

/// Where `p` moves over the edits `(at, d)`: by `d` for each that lies
/// before it or inserts right at it, never below zero.
fn shift_over(p: usize, moves: &Vec<(usize, i64)>, Ghost(b): Ghost<Seq<u8>>, Ghost(ts): Ghost<Seq<int>>) -> (r: usize)
    requires
        moves@.len() == ts.len(),
        forall|i: int|
            0 <= i < ts.len() ==> (#[trigger] moves@[i]).0 as int == comment_edit(
                b,
                ts[i],
                all_commented(b, ts),
                min_indent(b, ts),
            ).0 && moves@[i].1 as int == comment_edit(b, ts[i], all_commented(b, ts), min_indent(b, ts)).1,
        p + 3 * ts.len() <= isize::MAX,
    ensures
        r == comment_shift(b, ts, p as int),
{
    let mut out: i128 = p as i128;
    let mut i: usize = 0;
    while i < moves.len()
        invariant
            i <= moves@.len(),
            moves@.len() == ts.len(),
            p + 3 * ts.len() <= isize::MAX,
            forall|k: int|
                0 <= k < ts.len() ==> (#[trigger] moves@[k]).0 as int == comment_edit(
                    b,
                    ts[k],
                    all_commented(b, ts),
                    min_indent(b, ts),
                ).0 && moves@[k].1 as int == comment_edit(b, ts[k], all_commented(b, ts), min_indent(b, ts)).1,
            out == p + comment_moves(b, ts, i as int, p as int),
            -3 * i <= out - p <= 3 * i,
        decreases moves@.len() - i,
    {
        let (at, d) = moves[i];
        assert(-3 <= d <= 3);
        if p > at || (p == at && d > 0) {
            out = out + d as i128;
        }
        i += 1;
    }
    if out < 0 {
        0
    } else {
        out as usize
    }
}

proof fn lemma_targets_len(b: Seq<u8>, l0: int, n: int)
    ensures
        targets(b, l0, n).len() <= (if n > 0 { n } else { 0 }),
    decreases n,
{
    if n > 0 {
        lemma_targets_len(b, l0, n - 1);
    }
}

/// What is known of a collected target line.
spec fn info_ok(b: Seq<u8>, x: int, info: LineInfo) -> bool {
    &&& info.start as int == line_start_of(b, x)
    &&& info.indent as int == line_indent(b, x)
    &&& info.commented == is_commented(b, x)
    &&& info.spaced == is_spaced(b, x)
    &&& 0 <= info.indent <= line_bytes(b, x).len()
    &&& info.start + info.indent <= line_end_of(b, x) <= b.len()
    &&& info.commented ==> info.start + info.indent + 2 <= line_end_of(b, x)
    &&& info.commented && info.spaced ==> info.start + info.indent + 3 <= line_end_of(b, x)
    &&& line_end_of(b, x) < crate::buffer::editing::next_start(b, x + 1)
    &&& is_char_boundary(b, info.start + info.indent)
    &&& info.commented ==> is_char_boundary(b, info.start + info.indent + 2)
    &&& info.commented && info.spaced ==> is_char_boundary(b, info.start + info.indent + 3)
}

spec fn as_ints(v: Seq<usize>) -> Seq<int> {
    v.map_values(|x: usize| x as int)
}

/// The non-blank lines from `l0` to `l1`, with what toggling needs of each.
fn collect_targets(buf: &Buffer, l0: usize, l1: usize) -> (r: (Vec<LineInfo>, Vec<usize>))
    requires
        buf.wf(),
        l0 <= l1 + 1,
        l1 < line_starts_of(buf.bytes()).len(),
    ensures
        r.0@.len() == r.1@.len(),
        as_ints(r.1@) == targets(buf.bytes(), l0 as int, l1 - l0 + 1),
        forall|k: int| 0 <= k < r.1@.len() ==> info_ok(buf.bytes(), #[trigger] r.1@[k] as int, r.0@[k]),
        forall|i: int, j: int| 0 <= i < j < r.1@.len() ==> r.1@[i] < r.1@[j],
        forall|k: int| 0 <= k < r.1@.len() ==> l0 <= #[trigger] r.1@[k] <= l1,
{
    let ghost b = buf.bytes();
    let count = buf.line_count();
    let mut infos: Vec<LineInfo> = Vec::new();
    let mut lines: Vec<usize> = Vec::new();
    let mut l = l0;
    while l <= l1
        invariant
            b == buf.bytes(),
            buf.wf(),
            count == line_starts_of(b).len(),
            l0 <= l <= l1 + 1,
            l1 < count,
            infos@.len() == lines@.len(),
            as_ints(lines@) == targets(b, l0 as int, l - l0),
            forall|k: int| 0 <= k < lines@.len() ==> info_ok(b, #[trigger] lines@[k] as int, infos@[k]),
            forall|k: int| 0 <= k < lines@.len() ==> l0 <= #[trigger] lines@[k] < l,
            forall|i: int, j: int| 0 <= i < j < lines@.len() ==> lines@[i] < lines@[j],
        decreases l1 + 1 - l,
    {
        let info = line_info(buf, l);
        if !info.blank {
            infos.push(info);
            lines.push(l);
        }
        proof {
            assert(as_ints(lines@) =~= targets(b, l0 as int, l + 1 - l0));
        }
        l += 1;
    }
    (infos, lines)
}

/// Whether every target is commented, and their smallest indent.
fn summarize(infos: &Vec<LineInfo>, lines: &Vec<usize>, Ghost(b): Ghost<Seq<u8>>) -> (r: (bool, usize))
    requires
        0 < infos@.len() == lines@.len(),
        forall|k: int| 0 <= k < lines@.len() ==> info_ok(b, #[trigger] lines@[k] as int, infos@[k]),
    ensures
        r.0 == all_commented(b, as_ints(lines@)),
        r.1 as int == min_indent(b, as_ints(lines@)),
        forall|k: int| 0 <= k < lines@.len() ==> r.1 <= #[trigger] infos@[k].indent,
{
    let ghost ts = as_ints(lines@);
    let mut all = true;
    let mut m: usize = infos[0].indent;
    let mut k: usize = 0;
    while k < infos.len()
        invariant
            0 < infos@.len() == lines@.len(),
            ts == as_ints(lines@),
            k <= infos@.len(),
            forall|i: int| 0 <= i < lines@.len() ==> info_ok(b, #[trigger] lines@[i] as int, infos@[i]),
            all == (forall|i: int| 0 <= i < k ==> #[trigger] infos@[i].commented),
            k > 0 ==> m == min_indent(b, ts.take(k as int)),
            k == 0 ==> m == infos@[0].indent,
            forall|i: int| 0 <= i < k ==> m <= #[trigger] infos@[i].indent,
        decreases infos@.len() - k,
    {
        assert(info_ok(b, lines@[k as int] as int, infos@[k as int]));
        if !infos[k].commented {
            all = false;
        }
        if infos[k].indent < m {
            m = infos[k].indent;
        }
        proof {
            assert(ts.take(k + 1).drop_last() =~= ts.take(k as int));
            assert(ts[k as int] == lines@[k as int] as int);
        }
        k += 1;
    }
    proof {
        assert(ts.take(ts.len() as int) =~= ts);
        if all {
            assert forall|i: int| 0 <= i < ts.len() implies is_commented(b, #[trigger] ts[i]) by {
                assert(infos@[i].commented);
                assert(info_ok(b, lines@[i] as int, infos@[i]));
            }
        } else {
            let i = choose|i: int| 0 <= i < infos@.len() && !(#[trigger] infos@[i].commented);
            assert(info_ok(b, lines@[i] as int, infos@[i]));
            assert(!is_commented(b, ts[i]));
        }
    }
    (all, m)
}

/// The edits and how each moves offsets, one per target line.
fn comment_edits(
    infos: &Vec<LineInfo>,
    lines: &Vec<usize>,
    all: bool,
    m: usize,
    Ghost(b): Ghost<Seq<u8>>,
) -> (r: (Vec<(Range<usize>, String)>, Vec<(usize, i64)>))
    requires
        valid_utf8(b),
        b.len() <= usize::MAX,
        0 < infos@.len() == lines@.len(),
        forall|k: int| 0 <= k < lines@.len() ==> info_ok(b, #[trigger] lines@[k] as int, infos@[k]),
        forall|i: int, j: int| 0 <= i < j < lines@.len() ==> lines@[i] < lines@[j],
        forall|k: int| 0 <= k < lines@.len() ==> #[trigger] lines@[k] < line_starts_of(b).len(),
        all == all_commented(b, as_ints(lines@)),
        m as int == min_indent(b, as_ints(lines@)),
        forall|k: int| 0 <= k < lines@.len() ==> m <= #[trigger] infos@[k].indent,
        comment_fits(b, as_ints(lines@)),
    ensures
        r.0@.map_values(|e: (Range<usize>, String)| span_of(e)) == comment_spans(b, as_ints(lines@)),
        edits_fit(b, r.0@),
        r.1@.len() == lines@.len(),
        forall|i: int|
            0 <= i < lines@.len() ==> (#[trigger] r.1@[i]).0 as int == comment_edit(
                b,
                as_ints(lines@)[i],
                all,
                m as int,
            ).0 && r.1@[i].1 as int == comment_edit(b, as_ints(lines@)[i], all, m as int).1,
{
    let ghost ts = as_ints(lines@);
    proof {
        lemma_starts_upto(b, b.len());
    }
    let mut edits: Vec<(Range<usize>, String)> = Vec::new();
    let mut moves: Vec<(usize, i64)> = Vec::new();
    let mut k: usize = 0;
    while k < infos.len()
        invariant
            valid_utf8(b),
            b.len() <= usize::MAX,
            0 < infos@.len() == lines@.len(),
            ts == as_ints(lines@),
            forall|i: int| 0 <= i < lines@.len() ==> info_ok(b, #[trigger] lines@[i] as int, infos@[i]),
            forall|i: int, j: int| 0 <= i < j < lines@.len() ==> lines@[i] < lines@[j],
            forall|i: int| 0 <= i < lines@.len() ==> #[trigger] lines@[i] < line_starts_of(b).len(),
            forall|i: int| 0 <= i < lines@.len() ==> m <= #[trigger] infos@[i].indent,
            forall|i: int, j: int| 0 <= i < j < line_starts_of(b).len() ==> line_starts_of(b)[i] < line_starts_of(b)[j],
            comment_fits(b, ts),
            k <= infos@.len(),
            edits@.len() == k,
            moves@.len() == k,
            all == all_commented(b, ts),
            m as int == min_indent(b, ts),
            forall|i: int| 0 <= i < k ==> #[trigger] span_of(edits@[i]) == comment_spans(b, ts)[i],
            forall|i: int|
                0 <= i < k ==> (#[trigger] moves@[i]).0 as int == comment_edit(b, ts[i], all, m as int).0
                    && moves@[i].1 as int == comment_edit(b, ts[i], all, m as int).1,
            edits_fit(b, edits@),
            k > 0 ==> edits@[k - 1].0.end <= line_end_of(b, lines@[k - 1] as int),
        decreases infos@.len() - k,
    {
        let info = &infos[k];
        assert(info_ok(b, lines@[k as int] as int, infos@[k as int]));
        assert(ts[k as int] == lines@[k as int] as int);
        let ghost before = edits@;
        if all {
            assert(is_commented(b, ts[k as int]));
            let len: usize = if info.spaced {
                3
            } else {
                2
            };
            let at = info.start + info.indent;
            edits.push((at..at + len, String::new()));
            moves.push((at, -(len as i64)));
        } else {
            assert(is_char_boundary(b, line_start_of(b, ts[k as int]) + min_indent(b, ts)));
            let at = info.start + m;
            edits.push((at..at, dashes()));
            moves.push((at, 3));
        }
        proof {
            if k > 0 {
                let x = lines@[k - 1] as int;
                let y = lines@[k as int] as int;
                assert(info_ok(b, x, infos@[k - 1]));
                assert(x < y);
                assert(line_end_of(b, x) < crate::buffer::editing::next_start(b, x + 1));
                assert(crate::buffer::editing::next_start(b, x + 1) <= line_start_of(b, y));
            }
            assert forall|i: int| 0 <= i < edits@.len() - 1 implies edits@[i].0.end <= edits@[i + 1].0.start
                && edits@[i].0.start < edits@[i + 1].0.start by {
                if i < k - 1 {
                    assert(edits@[i] == before[i] && edits@[i + 1] == before[i + 1]);
                }
            }
        }
        k += 1;
    }
    proof {
        assert(edits@.map_values(|e: (Range<usize>, String)| span_of(e)) =~= comment_spans(b, ts));
    }
    (edits, moves)
}

/// Comments out the non-blank lines the selection touches with `-- ` at
/// their smallest indent, or, when every one of them already starts with
/// `--`, takes that marker (and a space after it) off each. Blank lines are
/// left alone, and so is the line a selection merely reaches the start of.
/// Returns whether anything changed; with no non-blank line nothing does.
#[verifier::rlimit(80)]
pub fn toggle_comment(buf: &mut Buffer) -> (r: bool)
    requires
        old(buf).wf(),
        old(buf).sel().anchor + 3 * line_starts_of(old(buf).bytes()).len() <= isize::MAX,
        old(buf).sel().head + 3 * line_starts_of(old(buf).bytes()).len() <= isize::MAX,
        comment_fits(
            old(buf).bytes(),
            targets(
                old(buf).bytes(),
                first_line(old(buf).bytes(), old(buf).sel()),
                block_last(old(buf).bytes(), old(buf).sel()) - first_line(old(buf).bytes(), old(buf).sel()) + 1,
            ),
        ),
    ensures
        ({
            let b = old(buf).bytes();
            let s = old(buf).sel();
            let l0 = first_line(b, s);
            let ts = targets(b, l0, block_last(b, s) - l0 + 1);
            &&& r == (ts.len() > 0)
            &&& !r ==> *final(buf) == *old(buf)
            &&& r ==> commanded(
                *old(buf),
                *final(buf),
                comment_spans(b, ts),
                Selection { anchor: comment_shift(b, ts, s.anchor as int), head: comment_shift(b, ts, s.head as int) },
            )
        }),
{
    let ghost b = buf.bytes();
    let sel = buf.selection;
    let (l0, l1) = crate::buffer::editing::block_lines(buf);
    let (infos, lines) = collect_targets(buf, l0, l1);
    let ghost ts = as_ints(lines@);
    proof {
        lemma_targets_len(b, l0 as int, l1 - l0 + 1);
        buf.lemma_wf();
    }
    if lines.len() == 0 {
        return false;
    }
    let (all, m) = summarize(&infos, &lines, Ghost(b));
    let total = buf.len();
    let (edits, moves) = comment_edits(&infos, &lines, all, m, Ghost(b));
    proof {
        lemma_spans_agree(b, edits@, 0, 0);
        crate::buffer::lemma_fit_disjoint(b, edits@);
    }
    let a = shift_over(sel.anchor, &moves, Ghost(b), Ghost(ts));
    let h = shift_over(sel.head, &moves, Ghost(b), Ghost(ts));
    buf.edit_many(edits, Selection { anchor: a, head: h }, EditKind::Other);
    true
}

} // verus!
