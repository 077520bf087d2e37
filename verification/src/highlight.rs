//! Syntax colouring: the One Dark colour of each token kind, and a line of
//! text cut into runs of one colour each for the text shaper.
use crate::buffer::{lemma_line_bounds, line_end_of, line_start_of, line_starts_of, Buffer};
use crate::tokens::{Tok, Token};
use vstd::prelude::*;

verus! {

/// The colours of the One Dark theme that the editor paints text in.
#[derive(Clone, Copy, Debug, PartialEq, Eq, Structural)]
pub enum Palette {
    Violet,
    Chalky,
    Whiskey,
    Sage,
    Coral,
    Cyan,
    Stone,
    Ivory,
}

/// The colour of a token kind; plain text is ivory.
pub open spec fn token_color_spec(kind: Tok) -> Palette {
    match kind {
        Tok::Keyword => Palette::Violet,
        Tok::Type | Tok::Number | Tok::Bits => Palette::Chalky,
        Tok::Builtin | Tok::Bool => Palette::Whiskey,
        Tok::String | Tok::Bytes => Palette::Sage,
        Tok::Identifier | Tok::SpecialVar => Palette::Coral,
        Tok::QuotedIdentifier | Tok::Operator => Palette::Cyan,
        Tok::LineComment | Tok::BlockComment => Palette::Stone,
        _ => Palette::Ivory,
    }
}

/// The colour a token kind is painted in.
pub fn token_color(kind: Tok) -> (r: Palette)
    ensures
        r == token_color_spec(kind),
{
    match kind {
        Tok::Keyword => Palette::Violet,
        Tok::Type | Tok::Number | Tok::Bits => Palette::Chalky,
        Tok::Builtin | Tok::Bool => Palette::Whiskey,
        Tok::String | Tok::Bytes => Palette::Sage,
        Tok::Identifier | Tok::SpecialVar => Palette::Coral,
        Tok::QuotedIdentifier | Tok::Operator => Palette::Cyan,
        Tok::LineComment | Tok::BlockComment => Palette::Stone,
        _ => Palette::Ivory,
    }
}

/// Tokens as the tokenizer hands them over: each range the right way round,
/// in order, none overlapping another.
pub open spec fn tokens_in_order(ts: Seq<Token>) -> bool {
    &&& forall|i: int| 0 <= i < ts.len() ==> #[trigger] ts[i].from <= ts[i].to
    &&& forall|i: int, j: int| 0 <= i < j < ts.len() ==> #[trigger] ts[i].to <= #[trigger] ts[j].from
}

/// Token `i` lies over byte `p`.
pub open spec fn covers(ts: Seq<Token>, i: int, p: int) -> bool {
    0 <= i < ts.len() && ts[i].from <= p < ts[i].to
}

/// The colour of byte `p`: that of the token over it, else ivory.
pub open spec fn color_at(ts: Seq<Token>, p: int) -> Palette {
    if exists|i: int| #[trigger] covers(ts, i, p) {
        token_color_spec(ts[choose|i: int| #[trigger] covers(ts, i, p)].kind)
    } else {
        Palette::Ivory
    }
}

/// The colours of bytes `from..to`, one per byte.
pub open spec fn colors_between(ts: Seq<Token>, from: int, to: int) -> Seq<Palette> {
    Seq::new((to - from) as nat, |k: int| color_at(ts, from + k))
}

/// `n` bytes of one colour.
pub open spec fn repeat(c: Palette, n: nat) -> Seq<Palette> {
    Seq::new(n, |_k: int| c)
}

/// Runs of colour, spelled out byte by byte.
pub open spec fn expand(runs: Seq<(usize, Palette)>) -> Seq<Palette>
    decreases runs.len(),
{
    if runs.len() == 0 {
        Seq::empty()
    } else {
        expand(runs.drop_last()) + repeat(runs.last().1, runs.last().0 as nat)
    }
}

/// Runs as the text shaper takes them: none empty, and no two neighbours of
/// one colour.
pub open spec fn runs_merged(runs: Seq<(usize, Palette)>) -> bool {
    &&& forall|i: int| 0 <= i < runs.len() ==> #[trigger] runs[i].0 > 0
    &&& forall|i: int| 0 <= i < runs.len() - 1 ==> #[trigger] runs[i].1 != runs[i + 1].1
}

/// Appends `len` bytes of colour `c`, growing the last run when it has that
/// colour.
fn push_run(runs: &mut Vec<(usize, Palette)>, len: usize, c: Palette)
    requires
        runs_merged(old(runs)@),
        expand(old(runs)@).len() + len <= usize::MAX,
    ensures
        runs_merged(final(runs)@),
        expand(final(runs)@) == expand(old(runs)@) + repeat(c, len as nat),
        len > 0 ==> final(runs)@.len() > 0 && final(runs)@.last().1 == c,
        len == 0 ==> final(runs)@ == old(runs)@,
{
    if len == 0 {
        proof {
            assert(expand(old(runs)@) + repeat(c, 0) =~= expand(old(runs)@));
        }
        return;
    }
    let ghost before = runs@;
    let n = runs.len();
    if n > 0 && runs[n - 1].1 == c {
        let last = runs[n - 1];
        runs.set(n - 1, (last.0 + len, c));
        proof {
            assert(runs@.drop_last() =~= before.drop_last());
            assert(repeat(c, last.0 as nat) + repeat(c, len as nat) =~= repeat(c, (last.0 + len) as nat));
            assert(expand(runs@) =~= expand(before.drop_last()) + repeat(c, (last.0 + len) as nat));
            assert(expand(before) =~= expand(before.drop_last()) + repeat(c, last.0 as nat));
            assert forall|i: int| 0 <= i < runs@.len() - 1 implies #[trigger] runs@[i].1 != runs@[i + 1].1 by {
                assert(runs@[i] == before[i]);
                if i + 1 < n - 1 {
                    assert(runs@[i + 1] == before[i + 1]);
                }
            }
        }
    } else {
        runs.push((len, c));
        proof {
            assert(runs@.drop_last() =~= before);
            assert forall|i: int| 0 <= i < runs@.len() - 1 implies #[trigger] runs@[i].1 != runs@[i + 1].1 by {
                assert(runs@[i] == before[i]);
                if i + 1 < n {
                    assert(runs@[i + 1] == before[i + 1]);
                }
            }
        }
    }
}

/// A byte that no token lies over is ivory.
proof fn lemma_uncovered(ts: Seq<Token>, p: int)
    requires
        forall|i: int| 0 <= i < ts.len() ==> !covers(ts, i, p),
    ensures
        color_at(ts, p) == Palette::Ivory,
{
}

/// A byte that token `i` lies over has that token's colour.
proof fn lemma_covered(ts: Seq<Token>, i: int, p: int)
    requires
        tokens_in_order(ts),
        covers(ts, i, p),
    ensures
        color_at(ts, p) == token_color_spec(ts[i].kind),
{
    let j = choose|j: int| #[trigger] covers(ts, j, p);
    assert(covers(ts, j, p));
    if j < i {
        assert(ts[j].to <= ts[i].from);
    } else if i < j {
        assert(ts[i].to <= ts[j].from);
    }
}

/// The colours up to `q` are those up to `pos` and then `c` for each byte
/// from `pos` to `q`.
proof fn lemma_colors_extend(ts: Seq<Token>, ls: int, pos: int, q: int, c: Palette)
    requires
        ls <= pos <= q,
        forall|p: int| pos <= p < q ==> color_at(ts, p) == c,
    ensures
        colors_between(ts, ls, q) == colors_between(ts, ls, pos) + repeat(c, (q - pos) as nat),
{
    assert(colors_between(ts, ls, q) =~= colors_between(ts, ls, pos) + repeat(c, (q - pos) as nat));
}

/// A line cut into runs of one colour each, as the text shaper takes it.
pub fn line_runs(buf: &Buffer, tokens: &Vec<Token>, line: usize) -> (r: Vec<(usize, Palette)>)
    requires
        buf.wf(),
        tokens_in_order(tokens@),
    ensures
        expand(r@) == colors_between(
            tokens@,
            line_start_of(buf.bytes(), line as int),
            line_end_of(buf.bytes(), line as int),
        ),
        runs_merged(r@),
{
    proof {
        buf.lemma_wf();
        let s = line_starts_of(buf.bytes());
        if line < s.len() {
            lemma_line_bounds(buf.bytes(), line as int);
        } else {
            lemma_line_bounds(buf.bytes(), s.len() - 1);
        }
    }
    let ghost ts = tokens@;
    let ls = buf.line_start(line);
    let le = buf.line_end(line);
    let _n = buf.len();
    let n = tokens.len();
    let mut runs: Vec<(usize, Palette)> = Vec::new();
    let mut pos = ls;
    let mut i: usize = 0;
    while i < n && tokens[i].to <= ls
        invariant
            ts == tokens@,
            n == ts.len(),
            i <= n,
            forall|j: int| 0 <= j < i ==> #[trigger] ts[j].to <= ls,
        decreases n - i,
    {
        i += 1;
    }
    proof {
        assert(expand(runs@) =~= colors_between(ts, ls as int, ls as int));
        assert forall|j: int| i <= j < n implies #[trigger] ts[j].to > ls by {
            if j > i {
                assert(ts[i as int].to <= ts[j].from);
            }
        }
    }
    while i < n
        invariant
            ts == tokens@,
            tokens_in_order(ts),
            n == ts.len(),
            i <= n,
            ls <= pos <= le,
            le <= usize::MAX,
            expand(runs@) == colors_between(ts, ls as int, pos as int),
            runs_merged(runs@),
            forall|j: int| 0 <= j < i ==> #[trigger] ts[j].to <= pos || pos == le,
            forall|j: int| i <= j < n ==> pos == ls || pos <= #[trigger] ts[j].from,
            forall|j: int| i <= j < n ==> #[trigger] ts[j].to > ls,
        ensures
            ls <= pos <= le,
            expand(runs@) == colors_between(ts, ls as int, pos as int),
            runs_merged(runs@),
            forall|j: int| 0 <= j < n ==> #[trigger] ts[j].to <= pos || pos == le || ts[j].from >= le,
        decreases n - i,
    {
        let t = tokens[i];
        if t.from >= le {
            proof {
                assert forall|j: int| 0 <= j < n implies #[trigger] ts[j].to <= pos || pos == le
                    || ts[j].from >= le by {
                    if j > i {
                        assert(ts[i as int].to <= ts[j].from);
                    }
                }
            }
            break;
        }
        let from = if t.from > ls {
            t.from
        } else {
            ls
        };
        let to = if t.to < le {
            t.to
        } else {
            le
        };
        proof {
            assert(ts[i as int] == t);
            assert(t.from <= t.to);
            assert forall|p: int| pos <= p < from implies color_at(ts, p) == Palette::Ivory by {
                assert forall|j: int| 0 <= j < ts.len() implies !covers(ts, j, p) by {
                    if j > i {
                        assert(ts[i as int].to <= ts[j].from);
                    }
                }
                lemma_uncovered(ts, p);
            }
            lemma_colors_extend(ts, ls as int, pos as int, from as int, Palette::Ivory);
        }
        if from > pos {
            push_run(&mut runs, from - pos, Palette::Ivory);
        }
        let ghost mid = if from > pos {
            from
        } else {
            pos
        };
        proof {
            if from <= pos {
                assert(colors_between(ts, ls as int, pos as int) + repeat(Palette::Ivory, 0)
                    =~= colors_between(ts, ls as int, pos as int));
            }
            assert(expand(runs@) == colors_between(ts, ls as int, from as int)) by {
                if from < pos {
                    assert(pos == ls);
                }
            }
            assert forall|p: int| from <= p < to implies color_at(ts, p) == token_color_spec(t.kind) by {
                lemma_covered(ts, i as int, p);
            }
            lemma_colors_extend(ts, ls as int, from as int, to as int, token_color_spec(t.kind));
        }
        let c = token_color(t.kind);
        push_run(&mut runs, to - from, c);
        pos = to;
        i += 1;
        proof {
            assert forall|j: int| i <= j < n implies pos == ls || pos <= #[trigger] ts[j].from by {
                assert(ts[i - 1].to <= ts[j].from);
            }
            assert forall|j: int| 0 <= j < i implies #[trigger] ts[j].to <= pos || pos == le by {
                if j < i - 1 {
                    assert(ts[j].to <= ts[i - 1].from);
                }
            }
        }
    }
    proof {
        assert forall|p: int| pos <= p < le implies color_at(ts, p) == Palette::Ivory by {
            assert forall|j: int| 0 <= j < ts.len() implies !covers(ts, j, p) by {}
            lemma_uncovered(ts, p);
        }
        lemma_colors_extend(ts, ls as int, pos as int, le as int, Palette::Ivory);
    }
    if le > pos {
        push_run(&mut runs, le - pos, Palette::Ivory);
    } else {
        proof {
            assert(colors_between(ts, ls as int, pos as int) + repeat(Palette::Ivory, 0)
                =~= colors_between(ts, ls as int, pos as int));
        }
    }
    runs
}

} // verus!
