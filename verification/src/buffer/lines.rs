//! What the buffer's line index and char steps amount to: the lines joined
//! by newlines are the text, a step over a char moves by its encoding, and
//! counting chars along a line finds an offset again.
use crate::buffer::{
    is_line_of, lemma_starts_upto, line_end_of, line_start_of, line_starts_of, starts_upto,
};
use crate::text::{
    char_at_spec, chars_in, is_next_boundary, is_prev_boundary, lemma_boundary_step, lemma_next_unique,
    lemma_prev_unique, lemma_range_split, lemma_range_valid, next_boundary_spec, prev_boundary_spec, utf8,
};
use vstd::prelude::*;
use vstd::utf8::*;

verus! {

broadcast use {
    vstd::utf8::decode_utf8_encode_utf8,
    vstd::utf8::encode_utf8_decode_utf8,
    vstd::utf8::is_char_boundary_start_end_of_seq,
};

/// The bytes of line `l`, without its newline.
pub open spec fn line_bytes(b: Seq<u8>, l: int) -> Seq<u8> {
    b.subrange(line_start_of(b, l), line_end_of(b, l))
}

/// Lines `0..k` of `b` joined by newlines.
pub open spec fn lines_joined(b: Seq<u8>, k: int) -> Seq<u8>
    decreases k,
{
    if k <= 1 {
        line_bytes(b, 0)
    } else {
        lines_joined(b, k - 1) + seq![10u8] + line_bytes(b, k - 1)
    }
}

/// Line `k` of the first `n` bytes, given the line starts `s` found in them.
spec fn seg(b: Seq<u8>, s: Seq<int>, n: int, k: int) -> Seq<u8> {
    b.subrange(
        s[k],
        if k + 1 < s.len() {
            s[k + 1] - 1
        } else {
            n
        },
    )
}

/// Lines `0..k` of the first `n` bytes joined by newlines.
spec fn join_from(b: Seq<u8>, s: Seq<int>, n: int, k: int) -> Seq<u8>
    decreases k,
{
    if k <= 1 {
        seg(b, s, n, 0)
    } else {
        join_from(b, s, n, k - 1) + seq![10u8] + seg(b, s, n, k - 1)
    }
}

proof fn lemma_join_same(b: Seq<u8>, s1: Seq<int>, n1: int, s2: Seq<int>, n2: int, k: int)
    requires
        forall|j: int| 0 <= j < k || j == 0 ==> seg(b, s1, n1, j) == seg(b, s2, n2, j),
    ensures
        join_from(b, s1, n1, k) == join_from(b, s2, n2, k),
    decreases k,
{
    if k > 1 {
        lemma_join_same(b, s1, n1, s2, n2, k - 1);
    }
}

/// The lines of the first `n` bytes, joined by newlines, are those bytes.
proof fn lemma_join_prefix(b: Seq<u8>, n: nat)
    requires
        n <= b.len(),
    ensures
        join_from(b, starts_upto(b, n), n as int, starts_upto(b, n).len() as int) == b.take(n as int),
    decreases n,
{
    lemma_starts_upto(b, n);
    let s = starts_upto(b, n);
    if n == 0 {
        assert(b.take(0) =~= b.subrange(0, 0));
    } else {
        let m = (n - 1) as nat;
        lemma_join_prefix(b, m);
        lemma_starts_upto(b, m);
        let s0 = starts_upto(b, m);
        let c = s0.len() as int;
        if b[n - 1] == 10u8 {
            assert(s == s0.push(n as int));
            assert forall|j: int| 0 <= j < c || j == 0 implies seg(b, s, n as int, j) == seg(b, s0, m as int, j) by {
                assert(s[j] == s0[j]);
                if j + 1 < c {
                    assert(s[j + 1] == s0[j + 1]);
                }
            }
            lemma_join_same(b, s, n as int, s0, m as int, c);
            assert(seg(b, s, n as int, c) =~= Seq::<u8>::empty());
            assert(b.take(n as int) =~= b.take(m as int) + seq![10u8] + Seq::<u8>::empty());
        } else {
            assert(s == s0);
            if c == 1 {
                assert(b.take(n as int) =~= b.subrange(0, n as int));
            } else {
                assert forall|j: int| 0 <= j < c - 1 || j == 0 implies seg(b, s, n as int, j) == seg(
                    b,
                    s0,
                    m as int,
                    j,
                ) by {}
                lemma_join_same(b, s, n as int, s0, m as int, c - 1);
                assert(join_from(b, s0, m as int, c) == join_from(b, s0, m as int, c - 1) + seq![10u8]
                    + seg(b, s0, m as int, c - 1));
                assert(b.take(n as int) =~= join_from(b, s0, m as int, c - 1) + seq![10u8] + seg(
                    b,
                    s0,
                    m as int,
                    c - 1,
                ) + seq![b[n - 1]]);
                assert(seg(b, s, n as int, c - 1) =~= seg(b, s0, m as int, c - 1) + seq![b[n - 1]]);
            }
        }
    }
}

proof fn lemma_joined_is_join(b: Seq<u8>, k: int)
    requires
        1 <= k <= line_starts_of(b).len(),
    ensures
        lines_joined(b, k) == join_from(b, line_starts_of(b), b.len() as int, k),
    decreases k,
{
    if k > 1 {
        lemma_joined_is_join(b, k - 1);
    }
}

/// The buffer's lines joined by newlines give back its text, and no line
/// holds a newline.
pub proof fn law_lines_join(b: Seq<u8>)
    ensures
        lines_joined(b, line_starts_of(b).len() as int) == b,
        forall|l: int, p: int|
            0 <= l < line_starts_of(b).len() && 0 <= p < line_bytes(b, l).len() ==> #[trigger] line_bytes(
                b,
                l,
            )[p] != 10u8,
{
    lemma_starts_upto(b, b.len());
    let s = line_starts_of(b);
    lemma_join_prefix(b, b.len());
    assert(b.take(b.len() as int) =~= b);
    lemma_joined_is_join(b, s.len() as int);
    assert forall|l: int, p: int| 0 <= l < s.len() && 0 <= p < line_bytes(b, l).len() implies #[trigger] line_bytes(
        b,
        l,
    )[p] != 10u8 by {
        let q = s[l] + p;
        assert(line_bytes(b, l)[p] == b[q]);
        if b[q] == 10u8 {
            assert(s.contains(q + 1));
            let m = choose|m: int| 0 <= m < s.len() && s[m] == q + 1;
            if m <= l {
                if m < l {
                    assert(s[m] < s[l]);
                }
            } else if m > l + 1 {
                assert(s[l + 1] < s[m]);
            }
        }
    }
}

/// A step forward from a boundary before the end moves by the length of the
/// char there, and a step back returns; at the ends the steps stay put.
pub proof fn law_char_steps(b: Seq<u8>, o: int)
    requires
        valid_utf8(b),
        0 <= o <= b.len(),
        is_char_boundary(b, o),
    ensures
        o < b.len() ==> next_boundary_spec(b, o) == o + utf8(seq![char_at_spec(b, o)]).len(),
        o < b.len() ==> prev_boundary_spec(b, next_boundary_spec(b, o)) == o,
        prev_boundary_spec(b, 0) == 0,
        next_boundary_spec(b, b.len() as int) == b.len(),
{
    lemma_prev_unique(b, 0, 0);
    lemma_next_unique(b, b.len() as int, b.len() as int);
    if o < b.len() {
        lemma_boundary_step(b, o);
        let l = length_of_first_scalar(b.subrange(o, b.len() as int));
        lemma_next_unique(b, o, o + l);
        lemma_range_valid(b, o, o + l);
        assert(utf8(chars_in(b, o, o + l)) == b.subrange(o, o + l));
        assert(is_prev_boundary(b, o + l, o));
        lemma_prev_unique(b, o + l, o);
    }
}

/// Between two boundaries there is at least one char.
proof fn lemma_count_grows(b: Seq<u8>, a: int, p: int, q: int)
    requires
        valid_utf8(b),
        0 <= a <= p < q <= b.len(),
        is_char_boundary(b, a),
        is_char_boundary(b, p),
        is_char_boundary(b, q),
    ensures
        chars_in(b, a, p).len() < chars_in(b, a, q).len(),
{
    lemma_range_split(b, a, p, q);
    lemma_range_valid(b, p, q);
    if chars_in(b, p, q).len() == 0 {
        assert(utf8(chars_in(b, p, q)) == b.subrange(p, q));
        assert(utf8(chars_in(b, p, q)) =~= Seq::<u8>::empty());
    }
}

/// Within one line, the boundary with a given number of chars before it is
/// unique.
proof fn lemma_same_count(b: Seq<u8>, a: int, p: int, q: int)
    requires
        valid_utf8(b),
        0 <= a <= p <= b.len(),
        a <= q <= b.len(),
        is_char_boundary(b, a),
        is_char_boundary(b, p),
        is_char_boundary(b, q),
        chars_in(b, a, p).len() == chars_in(b, a, q).len(),
    ensures
        p == q,
{
    if p < q {
        lemma_count_grows(b, a, p, q);
    } else if q < p {
        lemma_count_grows(b, a, q, p);
    }
}

/// Counting chars along a line finds an offset again: the offset that
/// `offset_at_column` gives for the line of `o` and the number of chars
/// before `o` in it (what `column_chars` gives) is `o`. A column at or past
/// the end of a line gives the line's end.
pub proof fn law_column_round_trip(b: Seq<u8>, o: int, l: int, r: int, col: int)
    requires
        valid_utf8(b),
        0 <= o <= b.len(),
        is_char_boundary(b, o),
        is_line_of(b, o, l),
        line_start_of(b, l) <= r <= line_end_of(b, l),
        is_char_boundary(b, r),
        col >= 0,
        chars_in(b, line_start_of(b, l), r).len() == if col < chars_in(b, line_start_of(b, l), line_end_of(b, l)).len() {
            col
        } else {
            chars_in(b, line_start_of(b, l), line_end_of(b, l)).len() as int
        },
    ensures
        col == chars_in(b, line_start_of(b, l), o).len() ==> r == o,
        col >= chars_in(b, line_start_of(b, l), line_end_of(b, l)).len() ==> r == line_end_of(b, l),
{
    lemma_starts_upto(b, b.len());
    crate::buffer::lemma_line_bounds(b, l);
    let ls = line_start_of(b, l);
    let le = line_end_of(b, l);
    assert(ls <= o <= le);
    if o < le {
        lemma_count_grows(b, ls, o, le);
    }
    if col == chars_in(b, ls, o).len() {
        lemma_same_count(b, ls, r, o);
    }
    if col >= chars_in(b, ls, le).len() {
        lemma_same_count(b, ls, r, le);
    }
}

} // verus!
