//! Text buffer with line index, selection and grouped undo history for the
//! SQL editor. Offsets are byte offsets into the UTF-8 text.
use crate::text::{byte_len, bytes_of, lemma_chars_of_bytes, char_at, char_at_spec, char_before_spec, chars_in, is_next_boundary, is_prev_boundary, lemma_boundary_concat, lemma_boundary_prefix, lemma_boundary_step, lemma_next_unique, lemma_prev_exists, lemma_prev_unique, lemma_range_split, lemma_valid_rest, next_boundary, next_boundary_spec, prev_boundary, prev_boundary_spec, splice, string_bytes, substr, utf8};
use crate::unicode::{alphanumeric, is_alphanumeric, is_whitespace, is_whitespace_spec};
use std::ops::Range;
use std::time::{Duration, Instant};
pub mod comment;
pub mod editing;
pub mod input;
pub mod lines;
pub mod moving;
pub mod cursor;
pub mod replacing;
pub mod typing;

use vstd::prelude::*;
use vstd::utf8::*;

verus! {

broadcast use {
    vstd::string::group_string_axioms,
    vstd::utf8::encode_utf8_valid_utf8,
    vstd::utf8::encode_utf8_decode_utf8,
    vstd::utf8::is_char_boundary_start_end_of_seq,
};

#[derive(Clone, Copy, Debug, PartialEq, Eq, Structural)]
pub struct Selection {
    pub anchor: usize,
    pub head: usize,
}

impl Selection {
    pub fn cursor(pos: usize) -> (s: Self)
        ensures
            s.anchor == pos,
            s.head == pos,
    {
        Selection { anchor: pos, head: pos }
    }

    pub fn range(&self) -> (r: Range<usize>)
        ensures
            r.start == (if self.anchor <= self.head { self.anchor } else { self.head }),
            r.end == (if self.anchor <= self.head { self.head } else { self.anchor }),
    {
        if self.anchor <= self.head {
            self.anchor..self.head
        } else {
            self.head..self.anchor
        }
    }

    pub fn is_empty(&self) -> (r: bool)
        ensures
            r == (self.anchor == self.head),
    {
        self.anchor == self.head
    }
}

/// The time of day, as `Instant`.
#[verifier::external_type_specification]
#[verifier::external_body]
pub struct ExInstant(Instant);

/// Calls `Instant::now`. Nothing is promised of the clock.
#[verifier::external_body]
fn clock_now() -> Instant {
    Instant::now()
}

/// Calls `Instant::duration_since`: the time from `earlier` to `now` (zero
/// when `earlier` is later). Nothing is promised of the clock.
#[verifier::external_body]
fn duration_since(now: &Instant, earlier: &Instant) -> Duration {
    now.duration_since(*earlier)
}

/// Calls `Duration::as_millis`: the whole milliseconds of a span.
#[verifier::external_body]
fn as_millis(d: &Duration) -> u128 {
    d.as_millis()
}

#[derive(Clone, Copy, PartialEq, Eq, Debug, Structural)]
pub enum EditKind {
    Type,
    Delete,
    Other,
}

/// Undo keeps at most this many steps.
pub const HISTORY_LIMIT: usize = 500;

/// Consecutive edits of one kind closer than this many milliseconds form one undo step.
pub const MERGE_WINDOW_MS: u128 = 500;

/// Whether an edit folds into the last undo step: not when a new step is
/// forced or the edit is of the `Other` kind; else when the last step is of
/// the same kind and was made less than `MERGE_WINDOW_MS` milliseconds ago.
pub fn merges(last_kind: Option<EditKind>, kind: EditKind, force_new: bool, elapsed_ms: u128) -> (r: bool)
    ensures
        r == (!force_new && kind != EditKind::Other && last_kind == Some(kind) && elapsed_ms
            < MERGE_WINDOW_MS),
{
    match last_kind {
        Some(k) => !force_new && kind != EditKind::Other && k == kind && elapsed_ms < MERGE_WINDOW_MS,
        None => false,
    }
}

struct HistoryEntry {
    text: String,
    selection: Selection,
    at: Instant,
    kind: EditKind,
}

/// An undo step as the history sees it: the text, the selection and the edit kind.
pub type UndoStep = (Seq<u8>, Selection, EditKind);

/// A redo step: the text and the selection to return to.
pub type RedoStep = (Seq<u8>, Selection);

/// Offsets at which lines start in the first `n` bytes: `0` and one past each newline.
pub open spec fn starts_upto(b: Seq<u8>, n: nat) -> Seq<int>
    decreases n,
{
    if n == 0 {
        seq![0int]
    } else if b[n - 1] == 10u8 {
        starts_upto(b, (n - 1) as nat).push(n as int)
    } else {
        starts_upto(b, (n - 1) as nat)
    }
}

/// Offsets at which the lines of `b` start.
pub open spec fn line_starts_of(b: Seq<u8>) -> Seq<int> {
    starts_upto(b, b.len())
}

/// Offset at which line `line` ends: before the newline that closes it, or at the end of the text.
pub open spec fn line_end_of(b: Seq<u8>, line: int) -> int {
    let s = line_starts_of(b);
    if line + 1 < s.len() {
        s[line + 1] - 1
    } else {
        b.len() as int
    }
}

/// Offset at which line `line` starts, the last line standing for any line past the end.
pub open spec fn line_start_of(b: Seq<u8>, line: int) -> int {
    let s = line_starts_of(b);
    if line < s.len() {
        s[line]
    } else {
        s[s.len() - 1]
    }
}

/// `r` is the line that holds offset `offset`: the last line starting at or before it.
pub open spec fn is_line_of(b: Seq<u8>, offset: int, r: int) -> bool {
    let s = line_starts_of(b);
    &&& 0 <= r < s.len()
    &&& s[r] <= offset
    &&& (r + 1 < s.len() ==> offset < s[r + 1])
}

/// `r` is the last char boundary at or before `offset` (capped at the end of the text).
pub open spec fn is_clamped(b: Seq<u8>, offset: int, r: int) -> bool {
    let m = if offset <= b.len() { offset } else { b.len() as int };
    &&& 0 <= r <= m
    &&& is_char_boundary(b, r)
    &&& forall|k: int| r < k <= m ==> !is_char_boundary(b, k)
}

/// The last char boundary at or before `offset`.
pub open spec fn clamp_spec(b: Seq<u8>, offset: int) -> int {
    choose|r: int| is_clamped(b, offset, r)
}

/// History grows by one step, forgetting the oldest past the limit.
pub open spec fn capped_push<T>(s: Seq<T>, e: T) -> Seq<T> {
    if s.len() + 1 > HISTORY_LIMIT {
        s.push(e).drop_first()
    } else {
        s.push(e)
    }
}

/// Whether a new edit may be folded into the last undo step (if the clock agrees).
pub open spec fn may_merge(u: Seq<UndoStep>, kind: EditKind, force_new: bool) -> bool {
    &&& !force_new
    &&& kind != EditKind::Other
    &&& u.len() > 0
    &&& u.last().2 == kind
}

pub proof fn lemma_starts_upto(b: Seq<u8>, n: nat)
    requires
        n <= b.len(),
    ensures
        ({
            let s = starts_upto(b, n);
            &&& s.len() >= 1
            &&& s[0] == 0
            &&& forall|i: int, j: int| 0 <= i < j < s.len() ==> s[i] < s[j]
            &&& forall|k: int| 1 <= k < s.len() ==> 1 <= s[k] <= n && b[s[k] - 1] == 10u8
            &&& forall|k: int| 0 <= k < s.len() ==> 0 <= #[trigger] s[k] <= n
            &&& forall|p: int| 0 <= p < n && b[p] == 10u8 ==> s.contains(p + 1)
        }),
    decreases n,
{
    if n > 0 {
        lemma_starts_upto(b, (n - 1) as nat);
        let s0 = starts_upto(b, (n - 1) as nat);
        let s = starts_upto(b, n);
        assert forall|p: int| 0 <= p < n && b[p] == 10u8 implies s.contains(p + 1) by {
            if p == n - 1 {
                assert(s[s.len() - 1] == n);
            } else {
                assert(s0.contains(p + 1));
                let j = choose|j: int| 0 <= j < s0.len() && s0[j] == p + 1;
                assert(s[j] == s0[j]);
            }
        }
    }
}

/// Every line start and every line end is a char boundary, and lines are ordered.
pub proof fn lemma_line_bounds(b: Seq<u8>, line: int)
    requires
        valid_utf8(b),
        0 <= line < line_starts_of(b).len(),
    ensures
        is_char_boundary(b, line_starts_of(b)[line]),
        is_char_boundary(b, line_end_of(b, line)),
        0 <= line_starts_of(b)[line] <= line_end_of(b, line) <= b.len(),
{
    let s = line_starts_of(b);
    lemma_starts_upto(b, b.len());
    if line > 0 {
        lemma_newline_boundaries(b, s[line] - 1);
    }
    if line + 1 < s.len() {
        lemma_newline_boundaries(b, s[line + 1] - 1);
        assert(s[line] < s[line + 1]);
    }
}

/// A newline byte sits on a char boundary, and so does the byte after it.
pub proof fn lemma_newline_boundaries(b: Seq<u8>, p: int)
    requires
        valid_utf8(b),
        0 <= p < b.len(),
        b[p] == 10u8,
    ensures
        is_char_boundary(b, p),
        is_char_boundary(b, p + 1),
{
    is_char_boundary_iff_not_is_continuation_byte(b, p);
    lemma_boundary_step(b, p);
    assert(b.subrange(p, b.len() as int)[0] == 10u8);
}

/// An ASCII byte sits on a char boundary, and so does the byte after it.
pub proof fn lemma_ascii_boundaries(b: Seq<u8>, p: int)
    requires
        valid_utf8(b),
        0 <= p < b.len(),
        b[p] < 0x80u8,
    ensures
        is_char_boundary(b, p),
        is_char_boundary(b, p + 1),
{
    is_char_boundary_iff_not_is_continuation_byte(b, p);
    lemma_boundary_step(b, p);
    assert(b.subrange(p, b.len() as int)[0] == b[p]);
}

pub proof fn lemma_clamp_unique(b: Seq<u8>, offset: int, r: int)
    requires
        is_clamped(b, offset, r),
    ensures
        clamp_spec(b, offset) == r,
{
    let c = clamp_spec(b, offset);
    assert(is_clamped(b, offset, c));
    if c < r {
        assert(!is_char_boundary(b, r));
    } else if r < c {
        assert(!is_char_boundary(b, c));
    }
}

pub proof fn lemma_clamp_exists(b: Seq<u8>, offset: int)
    requires
        valid_utf8(b),
        offset >= 0,
    ensures
        is_clamped(b, offset, clamp_spec(b, offset)),
        0 <= clamp_spec(b, offset) <= b.len(),
{
    let m = if offset <= b.len() { offset } else { b.len() as int };
    let r = choose_clamped(b, m, m);
    assert(is_clamped(b, offset, r));
    lemma_clamp_unique(b, offset, r);
}

proof fn choose_clamped(b: Seq<u8>, m: int, hi: int) -> (r: int)
    requires
        valid_utf8(b),
        0 <= hi <= m <= b.len(),
        forall|k: int| hi < k <= m ==> !is_char_boundary(b, k),
    ensures
        0 <= r <= hi,
        is_char_boundary(b, r),
        forall|k: int| r < k <= m ==> !is_char_boundary(b, k),
    decreases hi,
{
    if is_char_boundary(b, hi) {
        hi
    } else {
        assert(hi != 0);
        choose_clamped(b, m, hi - 1)
    }
}

/// The bytes of a text edit's replacement.
pub open spec fn edit_text(e: (Range<usize>, String)) -> Seq<u8> {
    utf8(e.1@)
}

/// Where edit `k` starts, with the end of the text standing after the last edit.
pub open spec fn edit_start(b: Seq<u8>, es: Seq<(Range<usize>, String)>, k: int) -> int {
    if k < es.len() {
        es[k].0.start as int
    } else {
        b.len() as int
    }
}

/// The edits are in order, do not overlap, and fall on char boundaries inside the text.
pub open spec fn edits_fit(b: Seq<u8>, es: Seq<(Range<usize>, String)>) -> bool {
    &&& forall|k: int|
        0 <= k < es.len() ==> {
            &&& es[k].0.start <= es[k].0.end <= b.len()
            &&& is_char_boundary(b, es[k].0.start as int)
            &&& is_char_boundary(b, es[k].0.end as int)
        }
    &&& forall|k: int|
        0 <= k < es.len() - 1 ==> es[k].0.end <= es[k + 1].0.start && es[k].0.start < es[
            k + 1
        ].0.start
}

/// The edits fall on char boundaries inside the text, start at different
/// offsets and do not overlap; they may come in any order.
pub open spec fn edits_disjoint(b: Seq<u8>, es: Seq<(Range<usize>, String)>) -> bool {
    &&& forall|k: int|
        0 <= k < es.len() ==> {
            &&& (#[trigger] es[k]).0.start <= es[k].0.end <= b.len()
            &&& is_char_boundary(b, es[k].0.start as int)
            &&& is_char_boundary(b, es[k].0.end as int)
        }
    &&& forall|i: int, j: int|
        0 <= i < es.len() && 0 <= j < es.len() && i != j ==> (#[trigger] es[i]).0.start != (
        #[trigger] es[j]).0.start && (es[i].0.start < es[j].0.start ==> es[i].0.end <= es[j].0.start)
}

/// `s` holds the edits of `es`, each once, ordered by where they start.
#[verifier::opaque]
pub open spec fn in_start_order(es: Seq<(Range<usize>, String)>, s: Seq<(Range<usize>, String)>) -> bool {
    &&& s.len() == es.len()
    &&& forall|i: int| 0 <= i < es.len() ==> s.contains(#[trigger] es[i])
    &&& forall|j: int| 0 <= j < s.len() ==> es.contains(#[trigger] s[j])
    &&& forall|i: int, j: int| 0 <= i < j < s.len() ==> (#[trigger] s[i]).0.start < (#[trigger] s[j]).0.start
}

/// Edits in order: any two, however far apart, are in order.
proof fn lemma_fit_pairwise(b: Seq<u8>, es: Seq<(Range<usize>, String)>, i: int, j: int)
    requires
        edits_fit(b, es),
        0 <= i < j < es.len(),
    ensures
        es[i].0.end <= es[j].0.start,
        es[i].0.start < es[j].0.start,
    decreases j - i,
{
    if j > i + 1 {
        lemma_fit_pairwise(b, es, i + 1, j);
        assert(es[i + 1].0.start <= es[i + 1].0.end);
    }
}

/// Edits in order do not overlap.
pub proof fn lemma_fit_disjoint(b: Seq<u8>, es: Seq<(Range<usize>, String)>)
    requires
        edits_fit(b, es),
    ensures
        edits_disjoint(b, es),
{
    reveal(edits_disjoint);
    assert forall|i: int, j: int|
        0 <= i < es.len() && 0 <= j < es.len() && i != j implies (#[trigger] es[i]).0.start != (
        #[trigger] es[j]).0.start && (es[i].0.start < es[j].0.start ==> es[i].0.end <= es[j].0.start) by {
        if i < j {
            lemma_fit_pairwise(b, es, i, j);
        } else {
            lemma_fit_pairwise(b, es, j, i);
        }
    }
}

/// Disjoint edits put in start order are in order.
proof fn lemma_ordered_fit(b: Seq<u8>, es: Seq<(Range<usize>, String)>, s: Seq<(Range<usize>, String)>)
    requires
        edits_disjoint(b, es),
        in_start_order(es, s),
    ensures
        edits_fit(b, s),
{
    reveal(edits_disjoint);
    reveal(in_start_order);
    assert forall|k: int| 0 <= k < s.len() implies {
        &&& s[k].0.start <= s[k].0.end <= b.len()
        &&& is_char_boundary(b, s[k].0.start as int)
        &&& is_char_boundary(b, s[k].0.end as int)
    } by {
        assert(es.contains(s[k]));
        let a = choose|a: int| 0 <= a < es.len() && es[a] == s[k];
        assert(es[a] == s[k]);
    }
    assert forall|k: int| 0 <= k < s.len() - 1 implies s[k].0.end <= s[k + 1].0.start && s[k].0.start
        < s[k + 1].0.start by {
        assert(s[k].0.start < s[k + 1].0.start);
        assert(es.contains(s[k]));
        assert(es.contains(s[k + 1]));
        let a = choose|a: int| 0 <= a < es.len() && es[a] == s[k];
        let c = choose|c: int| 0 <= c < es.len() && es[c] == s[k + 1];
        assert(es[a] == s[k] && es[c] == s[k + 1]);
    }
}

/// Edits already in order are their own start order.
proof fn lemma_order_unique(es: Seq<(Range<usize>, String)>, s: Seq<(Range<usize>, String)>)
    requires
        forall|i: int, j: int| 0 <= i < j < es.len() ==> (#[trigger] es[i]).0.start < (#[trigger] es[j]).0.start,
        in_start_order(es, s),
    ensures
        s == es,
    decreases es.len(),
{
    reveal(in_start_order);
    if es.len() > 0 {
        assert(s.contains(es[0]));
        let j = choose|j: int| 0 <= j < s.len() && s[j] == es[0];
        assert(es.contains(s[0]));
        let m = choose|m: int| 0 <= m < es.len() && es[m] == s[0];
        if j > 0 {
            assert(s[0].0.start < s[j].0.start);
            if m > 0 {
                assert(es[0].0.start < es[m].0.start);
            }
        }
        assert(s[0] == es[0]);
        let e2 = es.drop_first();
        let s2 = s.drop_first();
        assert forall|i: int| 0 <= i < e2.len() implies s2.contains(#[trigger] e2[i]) by {
            assert(e2[i] == es[i + 1]);
            assert(s.contains(es[i + 1]));
            let k = choose|k: int| 0 <= k < s.len() && s[k] == es[i + 1];
            assert(es[0].0.start < es[i + 1].0.start);
            assert(k != 0);
            assert(s2[k - 1] == s[k]);
        }
        assert forall|i: int| 0 <= i < s2.len() implies e2.contains(#[trigger] s2[i]) by {
            assert(s2[i] == s[i + 1]);
            assert(es.contains(s[i + 1]));
            let k = choose|k: int| 0 <= k < es.len() && es[k] == s[i + 1];
            assert(s[0].0.start < s[i + 1].0.start);
            assert(k != 0);
            assert(e2[k - 1] == es[k]);
        }
        assert forall|i: int, j: int| 0 <= i < j < s2.len() implies (#[trigger] s2[i]).0.start < (
        #[trigger] s2[j]).0.start by {
            assert(s2[i] == s[i + 1] && s2[j] == s[j + 1]);
        }
        assert forall|i: int, j: int| 0 <= i < j < e2.len() implies (#[trigger] e2[i]).0.start < (
        #[trigger] e2[j]).0.start by {
            assert(e2[i] == es[i + 1] && e2[j] == es[j + 1]);
        }
        lemma_order_unique(e2, s2);
        assert(s =~= seq![s[0]] + s2);
        assert(es =~= seq![es[0]] + e2);
    } else {
        assert(s =~= es);
    }
}

/// The edits put in start order.
#[verifier::rlimit(60)]
fn sort_edits(edits: Vec<(Range<usize>, String)>) -> (r: Vec<(Range<usize>, String)>)
    requires
        forall|i: int, j: int|
            0 <= i < edits@.len() && 0 <= j < edits@.len() && i != j ==> (#[trigger] edits@[i]).0.start
                != (#[trigger] edits@[j]).0.start,
    ensures
        in_start_order(edits@, r@),
{
    reveal(in_start_order);
    let ghost orig = edits@;
    let n = edits.len();
    let mut rest = edits;
    let mut out: Vec<(Range<usize>, String)> = Vec::new();
    let mut i: usize = 0;
    while i < n
        invariant
            n == orig.len(),
            i <= n,
            rest@ == orig.skip(i as int),
            forall|a: int, c: int|
                0 <= a < orig.len() && 0 <= c < orig.len() && a != c ==> (#[trigger] orig[a]).0.start
                    != (#[trigger] orig[c]).0.start,
            out@.len() == i,
            forall|k: int| 0 <= k < i ==> out@.contains(#[trigger] orig[k]),
            forall|j: int| 0 <= j < out@.len() ==> orig.take(i as int).contains(#[trigger] out@[j]),
            forall|a: int, c: int| 0 <= a < c < out@.len() ==> (#[trigger] out@[a]).0.start < (
            #[trigger] out@[c]).0.start,
        decreases n - i,
    {
        let x = rest.remove(0);
        proof {
            assert(x == orig[i as int]);
            assert(rest@ =~= orig.skip(i + 1));
        }
        let mut p: usize = 0;
        while p < out.len() && out[p].0.start < x.0.start
            invariant
                p <= out@.len(),
                forall|a: int| 0 <= a < p ==> (#[trigger] out@[a]).0.start < x.0.start,
            decreases out@.len() - p,
        {
            p += 1;
        }
        let ghost before = out@;
        proof {
            assert forall|a: int| p <= a < before.len() implies (#[trigger] before[a]).0.start > x.0.start by {
                assert(orig.take(i as int).contains(before[a]));
                let k = choose|k: int| 0 <= k < orig.take(i as int).len() && orig.take(i as int)[k] == before[a];
                assert(orig[k] == before[a]);
                assert(orig[k].0.start != orig[i as int].0.start);
                if a > p {
                    assert(before[p as int].0.start < before[a].0.start);
                }
            }
        }
        out.insert(p, x);
        proof {
            let now = out@;
            assert(now =~= before.insert(p as int, x));
            assert forall|k: int| 0 <= k < i + 1 implies now.contains(#[trigger] orig[k]) by {
                if k == i {
                    assert(now[p as int] == x);
                } else {
                    assert(before.contains(orig[k]));
                    let m = choose|m: int| 0 <= m < before.len() && before[m] == orig[k];
                    if m < p {
                        assert(now[m] == before[m]);
                    } else {
                        assert(now[m + 1] == before[m]);
                    }
                }
            }
            assert forall|j: int| 0 <= j < now.len() implies orig.take(i + 1).contains(#[trigger] now[j]) by {
                if j == p {
                    assert(orig.take(i + 1)[i as int] == x);
                } else {
                    let jj = if j < p {
                        j
                    } else {
                        j - 1
                    };
                    assert(now[j] == before[jj]);
                    assert(orig.take(i as int).contains(before[jj]));
                    let k = choose|k: int| 0 <= k < orig.take(i as int).len() && orig.take(i as int)[k] == before[jj];
                    assert(orig.take(i + 1)[k] == before[jj]);
                }
            }
            assert forall|a: int, c: int| 0 <= a < c < now.len() implies (#[trigger] now[a]).0.start < (
            #[trigger] now[c]).0.start by {
                if c < p {
                    assert(now[a] == before[a] && now[c] == before[c]);
                } else if c == p {
                    assert(now[a] == before[a]);
                } else if a == p {
                    assert(now[c] == before[c - 1]);
                } else if a < p {
                    assert(now[a] == before[a] && now[c] == before[c - 1]);
                } else {
                    assert(now[a] == before[a - 1] && now[c] == before[c - 1]);
                }
            }
        }
        i += 1;
    }
    proof {
        assert(orig.take(n as int) =~= orig);
    }
    out
}

/// The text from offset `from` on, with edits `k..` applied.
pub open spec fn spliced(b: Seq<u8>, es: Seq<(Range<usize>, String)>, k: int, from: int) -> Seq<
    u8,
>
    decreases es.len() - k,
{
    if k >= es.len() || k < 0 {
        b.subrange(from, b.len() as int)
    } else {
        b.subrange(from, es[k].0.start as int) + edit_text(es[k]) + spliced(
            b,
            es,
            k + 1,
            es[k].0.end as int,
        )
    }
}

/// The text with every edit applied.
pub open spec fn apply_edits(b: Seq<u8>, es: Seq<(Range<usize>, String)>) -> Seq<u8> {
    spliced(b, es, 0, 0)
}

proof fn lemma_spliced_shift(b: Seq<u8>, es: Seq<(Range<usize>, String)>, k: int, e: int)
    requires
        edits_fit(b, es),
        0 <= k <= es.len(),
        0 <= e <= edit_start(b, es, k),
    ensures
        spliced(b, es, k, e) == b.subrange(e, edit_start(b, es, k)) + spliced(
            b,
            es,
            k,
            edit_start(b, es, k),
        ),
{
    let st = edit_start(b, es, k);
    if k >= es.len() {
        assert(b.subrange(st, b.len() as int) =~= Seq::<u8>::empty());
        assert(b.subrange(e, b.len() as int) =~= b.subrange(e, st) + Seq::<u8>::empty());
    } else {
        assert(b.subrange(st, st) =~= Seq::<u8>::empty());
        let rest = edit_text(es[k]) + spliced(b, es, k + 1, es[k].0.end as int);
        assert(spliced(b, es, k, e) == b.subrange(e, st) + rest);
        assert(spliced(b, es, k, st) == Seq::<u8>::empty() + rest);
        assert(Seq::<u8>::empty() + rest =~= rest);
    }
}

/// What `undo` does to the history and the current text and selection:
/// `None` when there is nothing to undo.
pub open spec fn undo_spec(u: Seq<UndoStep>, r: Seq<RedoStep>, cur: RedoStep) -> Option<
    (Seq<UndoStep>, Seq<RedoStep>, RedoStep),
> {
    if u.len() == 0 {
        None
    } else {
        Some((u.drop_last(), r.push(cur), (u.last().0, u.last().1)))
    }
}

/// What `redo` does to the history and the current text and selection:
/// `None` when there is nothing to redo.
pub open spec fn redo_spec(u: Seq<UndoStep>, r: Seq<RedoStep>, cur: RedoStep) -> Option<
    (Seq<UndoStep>, Seq<RedoStep>, RedoStep),
> {
    if r.len() == 0 {
        None
    } else {
        Some((u.push((cur.0, cur.1, EditKind::Other)), r.drop_last(), r.last()))
    }
}

/// Undo right after a recorded change returns to the text and selection from
/// before that change, whatever the change was and however long the history.
pub proof fn law_undo_after_change(
    u: Seq<UndoStep>,
    before: RedoStep,
    kind: EditKind,
    now: RedoStep,
)
    ensures
        ({
            let h = capped_push(u, (before.0, before.1, kind));
            &&& undo_spec(h, Seq::<RedoStep>::empty(), now) is Some
            &&& undo_spec(h, Seq::<RedoStep>::empty(), now).unwrap().2 == before
        }),
{
}

/// Redo right after an undo returns to the text and selection from before the
/// undo, and leaves the redo history as it was before the undo.
pub proof fn law_redo_after_undo(u: Seq<UndoStep>, r: Seq<RedoStep>, cur: RedoStep)
    requires
        u.len() > 0,
    ensures
        ({
            let (u1, r1, prev) = undo_spec(u, r, cur).unwrap();
            &&& redo_spec(u1, r1, prev) is Some
            &&& redo_spec(u1, r1, prev).unwrap().2 == cur
            &&& redo_spec(u1, r1, prev).unwrap().1 == r
        }),
{
    let (u1, r1, prev) = undo_spec(u, r, cur).unwrap();
    assert(r1.drop_last() =~= r);
}

/// Undo right after a redo puts back exactly the history, text and selection
/// from before the redo.
pub proof fn law_undo_after_redo(u: Seq<UndoStep>, r: Seq<RedoStep>, cur: RedoStep)
    requires
        r.len() > 0,
    ensures
        ({
            let (u1, r1, next) = redo_spec(u, r, cur).unwrap();
            undo_spec(u1, r1, next) == Some((u, r, cur))
        }),
{
    let (u1, r1, next) = redo_spec(u, r, cur).unwrap();
    assert(u1.drop_last() =~= u);
    assert(r1.push(next) =~= r);
}

/// The history never holds more steps than the limit once it is within it.
pub proof fn law_history_is_capped(u: Seq<UndoStep>, e: UndoStep)
    requires
        u.len() <= HISTORY_LIMIT,
    ensures
        capped_push(u, e).len() <= HISTORY_LIMIT,
        capped_push(u, e).last() == e,
{
}

/// The line that holds offset `offset`.
pub open spec fn line_of_spec(b: Seq<u8>, offset: int) -> int {
    choose|r: int| is_line_of(b, offset, r)
}

/// An ASCII letter or digit.
pub open spec fn ascii_alphanumeric(c: char) -> bool {
    ||| ('0' <= c && c <= '9')
    ||| ('a' <= c && c <= 'z')
    ||| ('A' <= c && c <= 'Z')
}

/// Word class of a char for group movement: word chars (letters, digits and
/// `_`; every ASCII letter and digit is alphanumeric), white space (never
/// alphanumeric), the rest.
pub open spec fn class_spec(c: char) -> u8 {
    if ascii_alphanumeric(c) || c == '_' {
        2
    } else if is_whitespace_spec(c) {
        0
    } else if alphanumeric(c) {
        2
    } else {
        1
    }
}

/// Letters, digits and `_` are one class, the word chars, so group movement
/// crosses a run of them in one step; white space is a class of its own.
pub proof fn law_word_chars(c: char)
    ensures
        ('0' <= c && c <= '9') ==> class_spec(c) == class_spec('a'),
        ('a' <= c && c <= 'z') || ('A' <= c && c <= 'Z') ==> class_spec(c) == class_spec('_'),
        class_spec('_') == 2,
        is_whitespace_spec(c) ==> class_spec(c) == 0 && class_spec(c) != class_spec('a'),
{
}

/// `q` is where a run of chars satisfying `pred` that ends at `pos` starts, going back no further than `lo`.
pub open spec fn is_back_run(b: Seq<u8>, lo: int, pos: int, q: int, pred: spec_fn(char) -> bool) -> bool {
    &&& lo <= q <= pos
    &&& is_char_boundary(b, q)
    &&& forall|k: int| q <= k < pos && is_char_boundary(b, k) ==> pred(char_at_spec(b, k))
    &&& (q == lo || !pred(char_before_spec(b, q)))
}

/// `q` is where a run of chars satisfying `pred` that starts at `pos` ends, going no further than `hi`.
pub open spec fn is_fwd_run(b: Seq<u8>, pos: int, hi: int, q: int, pred: spec_fn(char) -> bool) -> bool {
    &&& pos <= q <= hi
    &&& is_char_boundary(b, q)
    &&& forall|k: int| pos <= k < q && is_char_boundary(b, k) ==> pred(char_at_spec(b, k))
    &&& (q == hi || !pred(char_at_spec(b, q)))
}

/// Start of the run of `pred` chars ending at `pos` (not before `lo`).
pub open spec fn back_run(b: Seq<u8>, lo: int, pos: int, pred: spec_fn(char) -> bool) -> int {
    choose|q: int| is_back_run(b, lo, pos, q, pred)
}

/// End of the run of `pred` chars starting at `pos` (not past `hi`).
pub open spec fn fwd_run(b: Seq<u8>, pos: int, hi: int, pred: spec_fn(char) -> bool) -> int {
    choose|q: int| is_fwd_run(b, pos, hi, q, pred)
}

/// Chars of one class.
pub open spec fn same_class(cls: u8) -> spec_fn(char) -> bool {
    |c: char| class_spec(c) == cls
}

/// White space chars.
pub open spec fn white() -> spec_fn(char) -> bool {
    |c: char| is_whitespace_spec(c)
}

/// CodeMirror group movement to the left: skip white space, then a run of one class,
/// staying within the line; at the line start, step back one char.
pub open spec fn word_left_spec(b: Seq<u8>, offset: int) -> int {
    let ls = line_start_of(b, line_of_spec(b, offset));
    if offset == ls {
        prev_boundary_spec(b, offset)
    } else {
        let w = back_run(b, ls, offset, white());
        if w == ls {
            w
        } else {
            back_run(b, ls, w, same_class(class_spec(char_before_spec(b, w))))
        }
    }
}

/// CodeMirror group movement to the right, the mirror of [`word_left_spec`].
pub open spec fn word_right_spec(b: Seq<u8>, offset: int) -> int {
    let le = line_end_of(b, line_of_spec(b, offset));
    if offset == le {
        next_boundary_spec(b, offset)
    } else {
        let w = fwd_run(b, offset, le, white());
        if w == le {
            w
        } else {
            fwd_run(b, w, le, same_class(class_spec(char_at_spec(b, w))))
        }
    }
}

/// The class a double click at `offset` selects: word chars on either side win,
/// then the char after, then the char before; `None` on an empty line.
pub open spec fn word_class_at(b: Seq<u8>, offset: int) -> Option<u8> {
    let line = line_of_spec(b, offset);
    let ls = line_start_of(b, line);
    let le = line_end_of(b, line);
    let at = if offset < le { Some(class_spec(char_at_spec(b, offset))) } else { None::<u8> };
    let before = if offset > ls { Some(class_spec(char_before_spec(b, offset))) } else { None::<u8> };
    if at == Some(2u8) || before == Some(2u8) {
        Some(2u8)
    } else if at is Some {
        at
    } else {
        before
    }
}

/// Indentation width of a line's leading blanks: a tab counts four, a space one.
pub open spec fn indent_width(cs: Seq<char>) -> nat
    decreases cs.len(),
{
    if cs.len() == 0 {
        0
    } else if cs[0] == ' ' {
        1 + indent_width(cs.drop_first())
    } else if cs[0] == '\t' {
        4 + indent_width(cs.drop_first())
    } else {
        0
    }
}

pub proof fn lemma_line_of_unique(b: Seq<u8>, offset: int, r: int)
    requires
        is_line_of(b, offset, r),
    ensures
        line_of_spec(b, offset) == r,
{
    lemma_starts_upto(b, b.len());
    let c = line_of_spec(b, offset);
    assert(is_line_of(b, offset, c));
    let s = line_starts_of(b);
    if c < r {
        assert(s[c + 1] <= s[r]);
    } else if r < c {
        assert(s[r + 1] <= s[c]);
    }
}

pub proof fn lemma_back_run_unique(
    b: Seq<u8>,
    lo: int,
    pos: int,
    q: int,
    pred: spec_fn(char) -> bool,
)
    requires
        is_back_run(b, lo, pos, q, pred),
        is_char_boundary(b, lo),
        valid_utf8(b),
    ensures
        back_run(b, lo, pos, pred) == q,
{
    let c = back_run(b, lo, pos, pred);
    assert(is_back_run(b, lo, pos, c, pred));
    if c != q {
        let (lo_q, hi_q) = if c < q { (c, q) } else { (q, c) };
        // hi_q > lo, so the char before it fails pred; that char starts in [lo_q, pos)
        let p = choose|p: int| is_prev_boundary(b, hi_q, p);
        lemma_prev_exists(b, hi_q);
        lemma_prev_unique(b, hi_q, p);
        assert(lo_q <= p) by {
            if p < lo_q {
                assert(!is_char_boundary(b, lo_q));
            }
        }
        assert(pred(char_at_spec(b, p)));
    }
}

pub proof fn lemma_fwd_run_unique(b: Seq<u8>, pos: int, hi: int, q: int, pred: spec_fn(char) -> bool)
    requires
        is_fwd_run(b, pos, hi, q, pred),
    ensures
        fwd_run(b, pos, hi, pred) == q,
{
    let c = fwd_run(b, pos, hi, pred);
    assert(is_fwd_run(b, pos, hi, c, pred));
    if c < q {
        assert(pred(char_at_spec(b, c)));
    } else if q < c {
        assert(pred(char_at_spec(b, q)));
    }
}

/// Leading blanks add up: blanks first, then whatever the rest gives.
pub proof fn lemma_indent_concat(a: Seq<char>, r: Seq<char>)
    requires
        forall|k: int| 0 <= k < a.len() ==> a[k] == ' ' || a[k] == '\t',
    ensures
        indent_width(a + r) == indent_width(a) + indent_width(r),
    decreases a.len(),
{
    if a.len() == 0 {
        assert(a + r =~= r);
    } else {
        lemma_indent_concat(a.drop_first(), r);
        assert((a + r).drop_first() =~= a.drop_first() + r);
        assert((a + r)[0] == a[0]);
    }
}

/// `text` with every edit applied, the edits in order.
fn splice_all(text: &str, edits: &Vec<(Range<usize>, String)>) -> (r: String)
    requires
        edits_fit(bytes_of(text), edits@),
    ensures
        string_bytes(&r) == apply_edits(bytes_of(text), edits@),
{
        let ghost b = bytes_of(text);
        let ghost es = edits@;
        proof {
            lemma_chars_of_bytes(text);
        }
        let n = edits.len();
        let mut k = n;
        let mut cur = copy_string(text);
        proof {
            assert(b.subrange(0, b.len() as int) =~= b);
            assert(spliced(b, es, n as int, b.len() as int) =~= Seq::<u8>::empty());
            assert(string_bytes(&cur) =~= b.subrange(0, edit_start(b, es, n as int)) + spliced(
                b,
                es,
                n as int,
                edit_start(b, es, n as int),
            ));
        }
        while k > 0
            invariant
                0 <= k <= n,
                n == es.len(),
                es == edits@,
                edits_fit(b, es),
                valid_utf8(b),
                is_char_boundary(b, 0),
                is_char_boundary(b, b.len() as int),
                string_bytes(&cur) == b.subrange(0, edit_start(b, es, k as int)) + spliced(
                    b,
                    es,
                    k as int,
                    edit_start(b, es, k as int),
                ),
            decreases k,
        {
            let ghost st = edit_start(b, es, k as int);
            let ghost rest = spliced(b, es, k as int, st);
            let s0 = edits[k - 1].0.start;
            let e0 = edits[k - 1].0.end;
            proof {
                assert(st <= b.len());
                assert(e0 <= st);
                assert(is_char_boundary(b, st));
                lemma_boundary_prefix(b, st, s0 as int);
                lemma_boundary_prefix(b, st, e0 as int);
                let pre = b.subrange(0, st);
                assert(valid_utf8(rest)) by {
                    lemma_boundary_prefix(b, st, 0);
                    lemma_valid_rest(pre, rest);
                }
                lemma_boundary_concat(pre, rest, s0 as int);
                lemma_boundary_concat(pre, rest, e0 as int);
            }
            let next = splice(cur.as_str(), s0, e0, edits[k - 1].1.as_str());
            proof {
                let cb = string_bytes(&cur);
                let pre = b.subrange(0, st);
                assert(cb.subrange(0, s0 as int) =~= b.subrange(0, s0 as int));
                assert(cb.subrange(e0 as int, cb.len() as int) =~= b.subrange(e0 as int, st)
                    + rest);
                lemma_spliced_shift(b, es, k as int, e0 as int);
                assert(spliced(b, es, k - 1, s0 as int) == b.subrange(s0 as int, s0 as int)
                    + edit_text(es[k - 1]) + spliced(b, es, k as int, e0 as int));
                assert(edit_start(b, es, k - 1) == s0);
                assert(string_bytes(&next) =~= b.subrange(0, s0 as int) + spliced(
                    b,
                    es,
                    k - 1,
                    s0 as int,
                ));
            }
            cur = next;
            k = k - 1;
        }
        proof {
            lemma_spliced_shift(b, es, 0, 0);
            assert(b.subrange(0, edit_start(b, es, 0)) =~= b.subrange(0, 0) + b.subrange(
                0,
                edit_start(b, es, 0),
            ));
            assert(b.subrange(0, 0) =~= Seq::<u8>::empty());
        }
        cur
}

fn copy_string(s: &str) -> (r: String)
    ensures
        r@ == s@,
{
    let mut r = String::new();
    r.append(s);
    r
}

pub struct Buffer {
    text: String,
    line_starts: Vec<usize>,
    pub selection: Selection,
    undo: Vec<HistoryEntry>,
    redo: Vec<(String, Selection)>,
    /// Preferred x (in chars) for vertical movement.
    pub goal_column: Option<usize>,
}

impl Buffer {
    /// The UTF-8 bytes of the document.
    pub closed spec fn bytes(&self) -> Seq<u8> {
        encode_utf8(self.text@)
    }

    /// The selection.
    pub closed spec fn sel(&self) -> Selection {
        self.selection
    }

    /// The preferred column for vertical movement.
    pub closed spec fn goal(&self) -> Option<usize> {
        self.goal_column
    }

    /// The undo history, oldest step first.
    pub closed spec fn undo_view(&self) -> Seq<UndoStep> {
        self.undo@.map_values(
            |e: HistoryEntry| (encode_utf8(e.text@), e.selection, e.kind),
        )
    }

    /// The redo history, the step that `redo` takes last.
    pub closed spec fn redo_view(&self) -> Seq<RedoStep> {
        self.redo@.map_values(|e: (String, Selection)| (encode_utf8(e.0@), e.1))
    }

    /// The line index matches the text.
    pub closed spec fn wf(&self) -> bool {
        &&& self.line_starts@.len() == line_starts_of(self.bytes()).len()
        &&& forall|i: int|
            0 <= i < self.line_starts@.len() ==> self.line_starts@[i] as int == line_starts_of(
                self.bytes(),
            )[i]
    }

    /// The same buffer with another selection.
    pub closed spec fn with_selection(self, s: Selection) -> Buffer {
        Buffer { selection: s, ..self }
    }

    /// Moving the selection changes nothing else.
    pub proof fn lemma_with_selection(self, s: Selection)
        ensures
            self.with_selection(s).sel() == s,
            self.with_selection(s).bytes() == self.bytes(),
            self.with_selection(s).goal() == self.goal(),
            self.with_selection(s).undo_view() == self.undo_view(),
            self.with_selection(s).redo_view() == self.redo_view(),
            self.with_selection(s).wf() == self.wf(),
    {
    }

    /// Lines start and end on char boundaries and the line index matches the text.
    pub proof fn lemma_wf(&self)
        requires
            self.wf(),
        ensures
            valid_utf8(self.bytes()),
            line_starts_of(self.bytes()).len() >= 1,
            line_starts_of(self.bytes())[0] == 0,
            is_char_boundary(self.bytes(), 0),
            is_char_boundary(self.bytes(), self.bytes().len() as int),
    {
        lemma_starts_upto(self.bytes(), self.bytes().len());
    }

    proof fn lemma_str(&self)
        ensures
            string_bytes(&self.text) == self.bytes(),
    {
    }

    fn reindex(&mut self)
        ensures
            final(self).wf(),
            final(self).text == old(self).text,
            final(self).selection == old(self).selection,
            final(self).undo == old(self).undo,
            final(self).redo == old(self).redo,
            final(self).goal_column == old(self).goal_column,
    {
        let bs = self.text.as_str().as_bytes();
        let n = bs.len();
        let ghost b = self.bytes();
        proof {
            self.lemma_str();
        }
        let mut starts: Vec<usize> = Vec::new();
        starts.push(0);
        let mut i: usize = 0;
        while i < n
            invariant
                n == bs@.len(),
                bs@ == b,
                i <= n,
                starts@.len() == starts_upto(b, i as nat).len(),
                forall|k: int|
                    0 <= k < starts@.len() ==> starts@[k] as int == starts_upto(b, i as nat)[k],
            decreases n - i,
        {
            if bs[i] == 10u8 {
                starts.push(i + 1);
            }
            i = i + 1;
            proof {
                assert(starts_upto(b, i as nat) == if b[i - 1] == 10u8 {
                    starts_upto(b, (i - 1) as nat).push(i as int)
                } else {
                    starts_upto(b, (i - 1) as nat)
                });
            }
        }
        self.line_starts = starts;
    }

    pub fn new(text: &str) -> (b: Self)
        ensures
            b.wf(),
            b.bytes() == bytes_of(text),
            b.sel() == (Selection { anchor: 0, head: 0 }),
            b.undo_view() == Seq::<UndoStep>::empty(),
            b.redo_view() == Seq::<RedoStep>::empty(),
            b.goal() is None,
    {
        let mut b = Buffer {
            text: text.to_string(),
            line_starts: Vec::new(),
            selection: Selection::cursor(0),
            undo: Vec::new(),
            redo: Vec::new(),
            goal_column: None,
        };
        b.reindex();
        proof {
            assert(b.undo_view() =~= Seq::<UndoStep>::empty());
            assert(b.redo_view() =~= Seq::<RedoStep>::empty());
        }
        b
    }

    pub fn text(&self) -> (r: &str)
        ensures
            bytes_of(r) == self.bytes(),
    {
        self.text.as_str()
    }

    /// The selection.
    pub fn selection(&self) -> (r: Selection)
        ensures
            r == self.sel(),
    {
        self.selection
    }

    /// Moves the selection, leaving everything else as it was.
    pub fn set_selection(&mut self, s: Selection)
        ensures
            *final(self) == old(self).with_selection(s),
    {
        self.selection = s;
    }

    pub fn len(&self) -> (r: usize)
        ensures
            r == self.bytes().len(),
    {
        byte_len(self.text.as_str())
    }

    pub fn line_count(&self) -> (r: usize)
        requires
            self.wf(),
        ensures
            r == line_starts_of(self.bytes()).len(),
    {
        self.line_starts.len()
    }

    pub fn line_start(&self, line: usize) -> (r: usize)
        requires
            self.wf(),
        ensures
            r == line_start_of(self.bytes(), line as int),
    {
        proof {
            self.lemma_wf();
        }
        let n = self.line_starts.len();
        let i = if line < n - 1 { line } else { n - 1 };
        self.line_starts[i]
    }

    pub fn line_end(&self, line: usize) -> (r: usize)
        requires
            self.wf(),
        ensures
            r == line_end_of(self.bytes(), line as int),
    {
        proof {
            self.lemma_wf();
            lemma_starts_upto(self.bytes(), self.bytes().len());
        }
        let n = self.line_starts.len();
        if line < n - 1 {
            self.line_starts[line + 1] - 1
        } else {
            self.len()
        }
    }

    pub fn line_text(&self, line: usize) -> (r: &str)
        requires
            self.wf(),
        ensures
            bytes_of(r) == self.bytes().subrange(
                line_start_of(self.bytes(), line as int),
                line_end_of(self.bytes(), line as int),
            ),
    {
        proof {
            self.lemma_wf();
            self.lemma_str();
            let s = line_starts_of(self.bytes());
            let l = if line < s.len() { line as int } else { s.len() - 1 };
            lemma_line_bounds(self.bytes(), l);
            lemma_line_bounds(self.bytes(), s.len() - 1);
        }
        let a = self.line_start(line);
        let b = self.line_end(line);
        substr(self.text.as_str(), a, b)
    }

    pub fn line_of(&self, offset: usize) -> (r: usize)
        requires
            self.wf(),
        ensures
            is_line_of(self.bytes(), offset as int, r as int),
    {
        proof {
            self.lemma_wf();
            lemma_starts_upto(self.bytes(), self.bytes().len());
        }
        let ghost s = line_starts_of(self.bytes());
        let n = self.line_starts.len();
        let mut lo: usize = 0;
        let mut hi: usize = n;
        while hi - lo > 1
            invariant
                n == s.len(),
                self.wf(),
                s == line_starts_of(self.bytes()),
                0 <= lo < hi <= n,
                s[lo as int] <= offset,
                hi < n ==> offset < s[hi as int],
            decreases hi - lo,
        {
            let mid = lo + (hi - lo) / 2;
            if self.line_starts[mid] <= offset {
                lo = mid;
            } else {
                hi = mid;
            }
        }
        lo
    }

    pub fn clamp(&self, offset: usize) -> (r: usize)
        requires
            self.wf(),
        ensures
            r as int == clamp_spec(self.bytes(), offset as int),
            is_clamped(self.bytes(), offset as int, r as int),
    {
        proof {
            self.lemma_wf();
            self.lemma_str();
        }
        let n = self.len();
        let m = if offset <= n { offset } else { n };
        let mut o = m;
        let s = self.text.as_str();
        while !s.is_char_boundary(o)
            invariant
                0 <= o <= m <= n,
                n == self.bytes().len(),
                m == (if offset <= n { offset } else { n }),
                is_char_boundary(self.bytes(), 0),
                bytes_of(s) == self.bytes(),
                forall|k: int| o < k <= m ==> !is_char_boundary(self.bytes(), k),
            decreases o,
        {
            o = o - 1;
        }
        proof {
            lemma_clamp_unique(self.bytes(), offset as int, o as int);
        }
        o
    }

    fn record(&mut self, kind: EditKind, force_new: bool)
        ensures
            final(self).text == old(self).text,
            final(self).line_starts == old(self).line_starts,
            final(self).selection == old(self).selection,
            final(self).goal_column == old(self).goal_column,
            final(self).redo_view() == Seq::<RedoStep>::empty(),
            final(self).undo_view() == capped_push(
                old(self).undo_view(),
                (old(self).bytes(), old(self).sel(), kind),
            ) || (may_merge(old(self).undo_view(), kind, force_new) && final(self).undo_view()
                == old(self).undo_view()),
            !may_merge(old(self).undo_view(), kind, force_new) ==> final(self).undo_view()
                == capped_push(old(self).undo_view(), (old(self).bytes(), old(self).sel(), kind)),
    {
        let now = clock_now();
        let n = self.undo.len();
        let mut merge = false;
        if !force_new && kind != EditKind::Other && n > 0 {
            let last = &self.undo[n - 1];
            let elapsed = as_millis(&duration_since(&now, &last.at));
            merge = merges(Some(last.kind), kind, force_new, elapsed);
        }
        let ghost u0 = self.undo_view();
        proof {
            if merge {
                assert(may_merge(u0, kind, force_new));
            }
        }
        if merge {
            let mut e = self.undo.pop().unwrap();
            e.at = now;
            self.undo.push(e);
            proof {
                assert(self.undo_view() =~= u0);
            }
        } else {
            let e = HistoryEntry {
                text: self.text.clone(),
                selection: self.selection,
                at: now,
                kind,
            };
            self.undo.push(e);
            proof {
                assert(self.undo_view() =~= u0.push((old(self).bytes(), old(self).sel(), kind)));
            }
            if self.undo.len() > HISTORY_LIMIT {
                self.undo.remove(0);
                proof {
                    assert(self.undo_view() =~= u0.push(
                        (old(self).bytes(), old(self).sel(), kind),
                    ).drop_first());
                }
            }
        }
        self.redo.clear();
        proof {
            assert(self.redo_view() =~= Seq::<RedoStep>::empty());
        }
    }

    /// Replace the whole document (external change, e.g. navigator sets SQL).
    pub fn set_text(&mut self, text: &str)
        requires
            old(self).wf(),
        ensures
            final(self).wf(),
            final(self).bytes() == bytes_of(text),
            final(self).sel() == (Selection {
                anchor: clamp_spec(bytes_of(text), old(self).sel().head as int) as usize,
                head: clamp_spec(bytes_of(text), old(self).sel().head as int) as usize,
            }),
            final(self).undo_view() == capped_push(
                old(self).undo_view(),
                (old(self).bytes(), old(self).sel(), EditKind::Other),
            ),
            final(self).redo_view() == Seq::<RedoStep>::empty(),
            final(self).goal() == old(self).goal(),
    {
        self.record(EditKind::Other, true);
        self.text = text.to_string();
        self.reindex();
        let n = self.len();
        let end = if self.selection.head <= n {
            self.selection.head
        } else {
            n
        };
        let end = self.clamp(end);
        proof {
            let h = old(self).sel().head as int;
            let b = bytes_of(text);
            let m = if h <= b.len() { h } else { b.len() as int };
            assert(is_clamped(b, h, end as int));
            lemma_clamp_unique(b, h, end as int);
        }
        self.selection = Selection::cursor(end);
    }

    /// Replace `range` with `new_text`, putting the cursor after the insert.
    pub fn edit(&mut self, range: Range<usize>, new_text: &str, kind: EditKind)
        requires
            old(self).wf(),
            clamp_spec(old(self).bytes(), range.start as int) <= clamp_spec(
                old(self).bytes(),
                range.end as int,
            ),
            old(self).bytes().len() + bytes_of(new_text).len() <= usize::MAX,
        ensures
            final(self).wf(),
            ({
                let b = old(self).bytes();
                let cs = clamp_spec(b, range.start as int);
                let ce = clamp_spec(b, range.end as int);
                &&& final(self).bytes() == b.subrange(0, cs) + bytes_of(new_text) + b.subrange(
                    ce,
                    b.len() as int,
                )
                &&& final(self).sel() == (Selection {
                    anchor: (cs + bytes_of(new_text).len()) as usize,
                    head: (cs + bytes_of(new_text).len()) as usize,
                })
            }),
            final(self).goal() is None,
            final(self).redo_view() == Seq::<RedoStep>::empty(),
            final(self).undo_view() == capped_push(
                old(self).undo_view(),
                (old(self).bytes(), old(self).sel(), kind),
            ) || (may_merge(old(self).undo_view(), kind, false) && final(self).undo_view()
                == old(self).undo_view()),
            !may_merge(old(self).undo_view(), kind, false) ==> final(self).undo_view()
                == capped_push(old(self).undo_view(), (old(self).bytes(), old(self).sel(), kind)),
    {
        proof {
            old(self).lemma_wf();
        }
        self.record(kind, false);
        let cs = self.clamp(range.start);
        let ce = self.clamp(range.end);
        let t = splice(self.text.as_str(), cs, ce, new_text);
        self.text = t;
        self.reindex();
        let tl = byte_len(new_text);
        let pos = cs + tl;
        self.selection = Selection::cursor(pos);
        self.goal_column = None;
    }

    /// Applies several edits that do not overlap, given in any order, as one
    /// undo step, then sets the selection.
    #[verifier::rlimit(50)]
    pub fn edit_many(
        &mut self,
        edits: Vec<(Range<usize>, String)>,
        selection: Selection,
        kind: EditKind,
    )
        requires
            old(self).wf(),
            edits_disjoint(old(self).bytes(), edits@),
        ensures
            final(self).wf(),
            exists|s: Seq<(Range<usize>, String)>|
                in_start_order(edits@, s) && final(self).bytes() == apply_edits(old(self).bytes(), s),
            edits_fit(old(self).bytes(), edits@) ==> final(self).bytes() == apply_edits(
                old(self).bytes(),
                edits@,
            ),
            final(self).sel() == (Selection {
                anchor: clamp_spec(final(self).bytes(), selection.anchor as int) as usize,
                head: clamp_spec(final(self).bytes(), selection.head as int) as usize,
            }),
            final(self).goal() is None,
            final(self).redo_view() == Seq::<RedoStep>::empty(),
            final(self).undo_view() == capped_push(
                old(self).undo_view(),
                (old(self).bytes(), old(self).sel(), kind),
            ),
    {
        proof {
            old(self).lemma_wf();
        }
        self.record(kind, true);
        let ghost b = old(self).bytes();
        let ghost given = edits@;
        proof {
            reveal(edits_disjoint);
        }
        let edits = sort_edits(edits);
        let ghost es = edits@;
        proof {
            lemma_ordered_fit(b, given, es);
            if edits_fit(b, given) {
                assert forall|i: int, j: int| 0 <= i < j < given.len() implies (#[trigger] given[i]).0.start < (
                #[trigger] given[j]).0.start by {
                    lemma_fit_pairwise(b, given, i, j);
                }
                lemma_order_unique(given, es);
            }
        }
        let cur = splice_all(self.text.as_str(), &edits);
        self.text = cur;
        self.reindex();
        let a = self.clamp(selection.anchor);
        let h = self.clamp(selection.head);
        self.selection = Selection { anchor: a, head: h };
        self.goal_column = None;
    }

    pub fn undo(&mut self) -> (r: bool)
        requires
            old(self).wf(),
        ensures
            final(self).wf(),
            r == (old(self).undo_view().len() > 0),
            r ==> {
                let e = old(self).undo_view().last();
                &&& final(self).bytes() == e.0
                &&& final(self).sel() == e.1
                &&& final(self).undo_view() == old(self).undo_view().drop_last()
                &&& final(self).redo_view() == old(self).redo_view().push(
                    (old(self).bytes(), old(self).sel()),
                )
            },
            !r ==> final(self).bytes() == old(self).bytes() && final(self).sel() == old(
                self,
            ).sel() && final(self).undo_view() == old(self).undo_view() && final(self).redo_view()
                == old(self).redo_view(),
            final(self).goal() == old(self).goal(),
            match undo_spec(old(self).undo_view(), old(self).redo_view(), (old(self).bytes(), old(self).sel())) {
                None => !r,
                Some((u, rd, c)) => r && final(self).undo_view() == u && final(self).redo_view() == rd
                    && final(self).bytes() == c.0 && final(self).sel() == c.1,
            },
    {
        if self.undo.len() > 0 {
            let ghost u0 = self.undo_view();
            let ghost r0 = self.redo_view();
            let entry = self.undo.pop().unwrap();
            let HistoryEntry { text, selection, at: _, kind: _ } = entry;
            let mut t = text;
            std::mem::swap(&mut self.text, &mut t);
            self.redo.push((t, self.selection));
            self.selection = selection;
            self.reindex();
            proof {
                assert(self.undo_view() =~= u0.drop_last());
                assert(self.redo_view() =~= r0.push((old(self).bytes(), old(self).sel())));
            }
            true
        } else {
            false
        }
    }

    pub fn redo(&mut self) -> (r: bool)
        requires
            old(self).wf(),
        ensures
            final(self).wf(),
            r == (old(self).redo_view().len() > 0),
            r ==> {
                let e = old(self).redo_view().last();
                &&& final(self).bytes() == e.0
                &&& final(self).sel() == e.1
                &&& final(self).redo_view() == old(self).redo_view().drop_last()
                &&& final(self).undo_view() == old(self).undo_view().push(
                    (old(self).bytes(), old(self).sel(), EditKind::Other),
                )
            },
            !r ==> final(self).bytes() == old(self).bytes() && final(self).sel() == old(
                self,
            ).sel() && final(self).undo_view() == old(self).undo_view() && final(self).redo_view()
                == old(self).redo_view(),
            final(self).goal() == old(self).goal(),
            match redo_spec(old(self).undo_view(), old(self).redo_view(), (old(self).bytes(), old(self).sel())) {
                None => !r,
                Some((u, rd, c)) => r && final(self).undo_view() == u && final(self).redo_view() == rd
                    && final(self).bytes() == c.0 && final(self).sel() == c.1,
            },
    {
        if self.redo.len() > 0 {
            let ghost u0 = self.undo_view();
            let ghost r0 = self.redo_view();
            let (text, sel) = self.redo.pop().unwrap();
            let mut t = text;
            std::mem::swap(&mut self.text, &mut t);
            let now = clock_now();
            self.undo.push(HistoryEntry { text: t, selection: self.selection, at: now, kind: EditKind::Other });
            self.selection = sel;
            self.reindex();
            proof {
                assert(self.redo_view() =~= r0.drop_last());
                assert(self.undo_view() =~= u0.push((old(self).bytes(), old(self).sel(), EditKind::Other)));
            }
            true
        } else {
            false
        }
    }

    pub fn prev_char(&self, offset: usize) -> (r: usize)
        requires
            self.wf(),
            offset <= self.bytes().len(),
            is_char_boundary(self.bytes(), offset as int),
        ensures
            is_prev_boundary(self.bytes(), offset as int, r as int),
            r as int == prev_boundary_spec(self.bytes(), offset as int),
    {
        let r = prev_boundary(self.text.as_str(), offset);
        proof {
            lemma_prev_unique(self.bytes(), offset as int, r as int);
        }
        r
    }

    pub fn next_char(&self, offset: usize) -> (r: usize)
        requires
            self.wf(),
            offset <= self.bytes().len(),
            is_char_boundary(self.bytes(), offset as int),
        ensures
            is_next_boundary(self.bytes(), offset as int, r as int),
            r as int == next_boundary_spec(self.bytes(), offset as int),
    {
        let r = next_boundary(self.text.as_str(), offset);
        proof {
            lemma_next_unique(self.bytes(), offset as int, r as int);
        }
        r
    }

    pub fn char_at(&self, offset: usize) -> (r: Option<char>)
        requires
            self.wf(),
            offset <= self.bytes().len(),
            is_char_boundary(self.bytes(), offset as int),
        ensures
            r == (if offset < self.bytes().len() {
                Some(char_at_spec(self.bytes(), offset as int))
            } else {
                None::<char>
            }),
    {
        let s = self.text.as_str();
        if offset < byte_len(s) {
            Some(char_at(s, offset))
        } else {
            None
        }
    }

    pub fn char_before(&self, offset: usize) -> (r: Option<char>)
        requires
            self.wf(),
            offset <= self.bytes().len(),
            is_char_boundary(self.bytes(), offset as int),
        ensures
            r == (if offset > 0 {
                Some(char_before_spec(self.bytes(), offset as int))
            } else {
                None::<char>
            }),
    {
        if offset == 0 {
            return None;
        }
        let p = self.prev_char(offset);
        proof {
            lemma_prev_unique(self.bytes(), offset as int, p as int);
        }
        let s = self.text.as_str();
        Some(char_at(s, p))
    }

    fn class(c: char) -> (r: u8)
        ensures
            r == class_spec(c),
    {
        if ('0' <= c && c <= '9') || ('a' <= c && c <= 'z') || ('A' <= c && c <= 'Z') || c == '_' {
            2
        } else if is_whitespace(c) {
            0
        } else if is_alphanumeric(c) {
            2
        } else {
            1
        }
    }

    /// Extends a backward run over `pred` chars by one char if it may.
    proof fn lemma_back_step(&self, lo: int, pos: int, end: int, p: int, pred: spec_fn(char) -> bool)
        requires
            self.wf(),
            is_char_boundary(self.bytes(), lo),
            lo < pos <= end <= self.bytes().len(),
            is_char_boundary(self.bytes(), pos),
            is_prev_boundary(self.bytes(), pos, p),
            pred(char_before_spec(self.bytes(), pos)),
            forall|k: int|
                pos <= k < end && is_char_boundary(self.bytes(), k) ==> pred(
                    char_at_spec(self.bytes(), k),
                ),
        ensures
            lo <= p < pos,
            forall|k: int|
                p <= k < end && is_char_boundary(self.bytes(), k) ==> pred(
                    char_at_spec(self.bytes(), k),
                ),
    {
        lemma_prev_unique(self.bytes(), pos, p);
        if p < lo {
            assert(!is_char_boundary(self.bytes(), lo));
        }
    }

    /// Walks back from `pos` over chars of the white space (`cls == None`) or of class `cls`.
    fn run_back(&self, lo: usize, pos: usize, cls: Option<u8>) -> (r: usize)
        requires
            self.wf(),
            lo <= pos <= self.bytes().len(),
            is_char_boundary(self.bytes(), lo as int),
            is_char_boundary(self.bytes(), pos as int),
        ensures
            is_back_run(
                self.bytes(),
                lo as int,
                pos as int,
                r as int,
                match cls {
                    None => white(),
                    Some(c) => same_class(c),
                },
            ),
    {
        let ghost pred = match cls {
            None => white(),
            Some(c) => same_class(c),
        };
        proof {
            self.lemma_wf();
        }
        let mut q = pos;
        loop
            invariant
                self.wf(),
                valid_utf8(self.bytes()),
                lo <= q <= pos <= self.bytes().len(),
                is_char_boundary(self.bytes(), lo as int),
                is_char_boundary(self.bytes(), q as int),
                pred == (match cls {
                    None => white(),
                    Some(c) => same_class(c),
                }),
                forall|k: int|
                    q <= k < pos && is_char_boundary(self.bytes(), k) ==> pred(
                        char_at_spec(self.bytes(), k),
                    ),
            ensures
                is_back_run(self.bytes(), lo as int, pos as int, q as int, pred),
            decreases q,
        {
            if q <= lo {
                break;
            }
            let c = self.char_before(q).unwrap();
            let ok = match cls {
                None => is_whitespace(c),
                Some(k) => Self::class(c) == k,
            };
            if !ok {
                break;
            }
            let p = self.prev_char(q);
            proof {
                self.lemma_back_step(lo as int, q as int, pos as int, p as int, pred);
            }
            q = p;
        }
        q
    }

    /// Walks forward from `pos` over chars of the white space (`cls == None`) or of class `cls`.
    fn run_fwd(&self, pos: usize, hi: usize, cls: Option<u8>) -> (r: usize)
        requires
            self.wf(),
            pos <= hi <= self.bytes().len(),
            is_char_boundary(self.bytes(), hi as int),
            is_char_boundary(self.bytes(), pos as int),
        ensures
            is_fwd_run(
                self.bytes(),
                pos as int,
                hi as int,
                r as int,
                match cls {
                    None => white(),
                    Some(c) => same_class(c),
                },
            ),
    {
        let ghost pred = match cls {
            None => white(),
            Some(c) => same_class(c),
        };
        proof {
            self.lemma_wf();
        }
        let mut q = pos;
        loop
            invariant
                self.wf(),
                valid_utf8(self.bytes()),
                pos <= q <= hi <= self.bytes().len(),
                is_char_boundary(self.bytes(), hi as int),
                is_char_boundary(self.bytes(), q as int),
                pred == (match cls {
                    None => white(),
                    Some(c) => same_class(c),
                }),
                forall|k: int|
                    pos <= k < q && is_char_boundary(self.bytes(), k) ==> pred(
                        char_at_spec(self.bytes(), k),
                    ),
            ensures
                is_fwd_run(self.bytes(), pos as int, hi as int, q as int, pred),
            decreases hi - q,
        {
            if q >= hi {
                break;
            }
            let c = self.char_at(q).unwrap();
            let ok = match cls {
                None => is_whitespace(c),
                Some(k) => Self::class(c) == k,
            };
            if !ok {
                break;
            }
            let n = self.next_char(q);
            proof {
                assert forall|k: int|
                    pos <= k < n && is_char_boundary(self.bytes(), k) implies pred(
                        char_at_spec(self.bytes(), k),
                    ) by {
                    if k >= q && k != q {
                        assert(!is_char_boundary(self.bytes(), k));
                    }
                }
                if n > hi {
                    assert(!is_char_boundary(self.bytes(), hi as int));
                }
            }
            q = n;
        }
        q
    }

    /// The start and end of the line holding `offset`, with the facts callers need.
    fn line_bounds(&self, offset: usize) -> (r: (usize, usize))
        requires
            self.wf(),
            offset <= self.bytes().len(),
        ensures
            r.0 as int == line_start_of(self.bytes(), line_of_spec(self.bytes(), offset as int)),
            r.1 as int == line_end_of(self.bytes(), line_of_spec(self.bytes(), offset as int)),
            r.0 <= offset <= r.1 <= self.bytes().len(),
            is_char_boundary(self.bytes(), r.0 as int),
            is_char_boundary(self.bytes(), r.1 as int),
    {
        proof {
            self.lemma_wf();
            lemma_starts_upto(self.bytes(), self.bytes().len());
        }
        let line = self.line_of(offset);
        proof {
            lemma_line_of_unique(self.bytes(), offset as int, line as int);
            lemma_line_bounds(self.bytes(), line as int);
        }
        (self.line_start(line), self.line_end(line))
    }

    /// CodeMirror group movement: skip whitespace, then a run of one class.
    pub fn word_left(&self, offset: usize) -> (r: usize)
        requires
            self.wf(),
            offset <= self.bytes().len(),
            is_char_boundary(self.bytes(), offset as int),
        ensures
            r as int == word_left_spec(self.bytes(), offset as int),
    {
        proof {
            self.lemma_wf();
        }
        let (line_start, _) = self.line_bounds(offset);
        if offset == line_start {
            return self.prev_char(offset);
        }
        let pos = self.run_back(line_start, offset, None);
        proof {
            lemma_back_run_unique(self.bytes(), line_start as int, offset as int, pos as int, white());
        }
        if pos == line_start {
            return pos;
        }
        let cls = Self::class(self.char_before(pos).unwrap());
        let r = self.run_back(line_start, pos, Some(cls));
        proof {
            lemma_back_run_unique(
                self.bytes(),
                line_start as int,
                pos as int,
                r as int,
                same_class(cls),
            );
        }
        r
    }

    pub fn word_right(&self, offset: usize) -> (r: usize)
        requires
            self.wf(),
            offset <= self.bytes().len(),
            is_char_boundary(self.bytes(), offset as int),
        ensures
            r as int == word_right_spec(self.bytes(), offset as int),
    {
        proof {
            self.lemma_wf();
        }
        let (_, line_end) = self.line_bounds(offset);
        if offset == line_end {
            return self.next_char(offset);
        }
        let pos = self.run_fwd(offset, line_end, None);
        proof {
            lemma_fwd_run_unique(self.bytes(), offset as int, line_end as int, pos as int, white());
        }
        if pos == line_end {
            return pos;
        }
        let cls = Self::class(self.char_at(pos).unwrap());
        let r = self.run_fwd(pos, line_end, Some(cls));
        proof {
            lemma_fwd_run_unique(self.bytes(), pos as int, line_end as int, r as int, same_class(cls));
        }
        r
    }

    pub fn word_range_at(&self, offset: usize) -> (r: Range<usize>)
        requires
            self.wf(),
            offset <= self.bytes().len(),
            is_char_boundary(self.bytes(), offset as int),
        ensures
            ({
                let b = self.bytes();
                let line = line_of_spec(b, offset as int);
                match word_class_at(b, offset as int) {
                    None => r.start == offset && r.end == offset,
                    Some(cls) => {
                        &&& r.start as int == back_run(
                            b,
                            line_start_of(b, line),
                            offset as int,
                            same_class(cls),
                        )
                        &&& r.end as int == fwd_run(b, offset as int, line_end_of(b, line), same_class(cls))
                    },
                }
            }),
    {
        proof {
            self.lemma_wf();
        }
        let (ls, le) = self.line_bounds(offset);
        let at = if offset < le {
            match self.char_at(offset) {
                Some(c) => Some(Self::class(c)),
                None => None,
            }
        } else {
            None
        };
        let before = if offset > ls {
            match self.char_before(offset) {
                Some(c) => Some(Self::class(c)),
                None => None,
            }
        } else {
            None
        };
        let cls = if at == Some(2u8) || before == Some(2u8) {
            2u8
        } else {
            match at {
                Some(c) => c,
                None => match before {
                    Some(c) => c,
                    None => {
                        return offset..offset;
                    },
                },
            }
        };
        let start = self.run_back(ls, offset, Some(cls));
        let end = self.run_fwd(offset, le, Some(cls));
        proof {
            lemma_back_run_unique(self.bytes(), ls as int, offset as int, start as int, same_class(cls));
            lemma_fwd_run_unique(self.bytes(), offset as int, le as int, end as int, same_class(cls));
        }
        start..end
    }

    pub fn column_chars(&self, offset: usize) -> (r: usize)
        requires
            self.wf(),
            offset <= self.bytes().len(),
            is_char_boundary(self.bytes(), offset as int),
        ensures
            r == chars_in(
                self.bytes(),
                line_start_of(self.bytes(), line_of_spec(self.bytes(), offset as int)),
                offset as int,
            ).len(),
    {
        let (ls, _) = self.line_bounds(offset);
        let part = substr(self.text.as_str(), ls, offset);
        part.unicode_len()
    }

    pub fn offset_at_column(&self, line: usize, col: usize) -> (r: usize)
        requires
            self.wf(),
        ensures
            ({
                let b = self.bytes();
                let ls = line_start_of(b, line as int);
                let le = line_end_of(b, line as int);
                let n = chars_in(b, ls, le).len();
                &&& ls <= r <= le
                &&& is_char_boundary(b, r as int)
                &&& chars_in(b, ls, r as int).len() == (if col < n { col as int } else { n as int })
            }),
    {
        proof {
            self.lemma_wf();
            let s = line_starts_of(self.bytes());
            let l = if line < s.len() { line as int } else { s.len() - 1 };
            lemma_line_bounds(self.bytes(), l);
            lemma_line_bounds(self.bytes(), s.len() - 1);
        }
        let ghost b = self.bytes();
        let ls = self.line_start(line);
        let le = self.line_end(line);
        let mut pos = ls;
        let mut k: usize = 0;
        proof {
            assert(b.subrange(ls as int, ls as int) =~= Seq::<u8>::empty());
            assert(chars_in(b, ls as int, ls as int) =~= Seq::<char>::empty());
        }
        while k < col && pos < le
            invariant
                self.wf(),
                b == self.bytes(),
                valid_utf8(b),
                ls <= pos <= le <= b.len(),
                is_char_boundary(b, ls as int),
                is_char_boundary(b, le as int),
                is_char_boundary(b, pos as int),
                k <= col,
                chars_in(b, ls as int, pos as int).len() == k,
            decreases le - pos,
        {
            let q = self.next_char(pos);
            proof {
                lemma_boundary_step(b, pos as int);
                lemma_next_unique(b, pos as int, q as int);
                let l = vstd::utf8::length_of_first_scalar(b.subrange(pos as int, b.len() as int));
                lemma_next_unique(b, pos as int, pos + l);
                lemma_range_split(b, ls as int, pos as int, q as int);
                if q > le {
                    assert(!is_char_boundary(b, le as int));
                }
            }
            pos = q;
            k = k + 1;
        }
        proof {
            lemma_range_split(b, ls as int, pos as int, le as int);
            if pos == le {
            } else {
                assert(k == col);
            }
        }
        pos
    }

    pub fn indentation_of_line(&self, line: usize) -> (r: usize)
        requires
            self.wf(),
            self.bytes().len() * 4 <= usize::MAX,
        ensures
            r == indent_width(
                chars_in(
                    self.bytes(),
                    line_start_of(self.bytes(), line as int),
                    line_end_of(self.bytes(), line as int),
                ),
            ),
    {
        proof {
            self.lemma_wf();
            let s = line_starts_of(self.bytes());
            let l = if line < s.len() { line as int } else { s.len() - 1 };
            lemma_line_bounds(self.bytes(), l);
            lemma_line_bounds(self.bytes(), s.len() - 1);
        }
        let ghost b = self.bytes();
        let ls = self.line_start(line);
        let le = self.line_end(line);
        let mut pos = ls;
        let mut total: usize = 0;
        proof {
            assert(chars_in(b, ls as int, ls as int) =~= Seq::<char>::empty());
        }
        loop
            invariant
                self.wf(),
                b == self.bytes(),
                b.len() * 4 <= usize::MAX,
                valid_utf8(b),
                ls <= pos <= le <= b.len(),
                is_char_boundary(b, ls as int),
                is_char_boundary(b, le as int),
                is_char_boundary(b, pos as int),
                forall|k: int|
                    0 <= k < chars_in(b, ls as int, pos as int).len() ==> chars_in(
                        b,
                        ls as int,
                        pos as int,
                    )[k] == ' ' || chars_in(b, ls as int, pos as int)[k] == '\t',
                total == indent_width(chars_in(b, ls as int, pos as int)),
                total <= 4 * (pos - ls),
            ensures
                total == indent_width(chars_in(b, ls as int, le as int)),
            decreases le - pos,
        {
            proof {
                lemma_range_split(b, ls as int, pos as int, le as int);
                lemma_indent_concat(chars_in(b, ls as int, pos as int), chars_in(b, pos as int, le as int));
            }
            if pos >= le {
                proof {
                    assert(chars_in(b, pos as int, le as int) =~= Seq::<char>::empty());
                }
                break;
            }
            let c = self.char_at(pos).unwrap();
            let q = self.next_char(pos);
            proof {
                lemma_boundary_step(b, pos as int);
                let l = vstd::utf8::length_of_first_scalar(b.subrange(pos as int, b.len() as int));
                lemma_next_unique(b, pos as int, pos + l);
                lemma_next_unique(b, pos as int, q as int);
                if q > le {
                    assert(!is_char_boundary(b, le as int));
                }
                lemma_range_split(b, pos as int, q as int, le as int);
                lemma_range_split(b, ls as int, pos as int, q as int);
                assert(chars_in(b, pos as int, le as int)[0] == c);
            }
            if c == ' ' {
                total = total + 1;
            } else if c == '\t' {
                total = total + 4;
            } else {
                break;
            }
            proof {
                let a = chars_in(b, ls as int, pos as int);
                lemma_indent_concat(a, seq![c]);
                assert(seq![c].drop_first() =~= Seq::<char>::empty());
                assert(indent_width(Seq::<char>::empty()) == 0);
                assert(seq![c][0] == c);
                assert(indent_width(seq![c]) == (if c == ' ' { 1nat } else { 4nat }));
            }
            pos = q;
        }
        total
    }

}

} // verus!
