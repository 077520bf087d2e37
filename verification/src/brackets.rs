//! Bracket matching in the editor: the bracket token at the cursor and its
//! partner.
use crate::buffer::{Buffer, Selection};
use crate::seqs::{first_where, lemma_first_found, lemma_first_none, lemma_first_some};
use crate::text::prev_boundary_spec;
use crate::tokens::{is_bracket, is_bracket_kind, Tok, Token};
use std::ops::Range;
use vstd::prelude::*;
use vstd::utf8::*;

verus! {

/// The opening and closing kind of a bracket's pair, and whether its partner
/// lies after it.
pub open spec fn pair_of(k: Tok) -> (Tok, Tok, bool) {
    match k {
        Tok::ParenL => (Tok::ParenL, Tok::ParenR, true),
        Tok::ParenR => (Tok::ParenL, Tok::ParenR, false),
        Tok::BracketL => (Tok::BracketL, Tok::BracketR, true),
        Tok::BracketR => (Tok::BracketL, Tok::BracketR, false),
        Tok::BraceL => (Tok::BraceL, Tok::BraceR, true),
        _ => (Tok::BraceL, Tok::BraceR, false),
    }
}

/// A bracket token starting at `at`.
pub open spec fn bracket_starting(at: int) -> spec_fn(Token) -> bool {
    |t: Token| t.from == at && is_bracket(t.kind)
}

/// How many tokens of `s` are of kind `k`.
pub open spec fn count_kind(s: Seq<Token>, k: Tok) -> int
    decreases s.len(),
{
    if s.len() == 0 {
        0
    } else {
        count_kind(s.drop_last(), k) + if s.last().kind == k {
            1int
        } else {
            0
        }
    }
}

/// Brackets still open from token `i` through token `j`, going forward.
pub open spec fn depth_fwd(tokens: Seq<Token>, i: int, j: int, open: Tok, close: Tok) -> int {
    count_kind(tokens.subrange(i, j + 1), open) - count_kind(tokens.subrange(i, j + 1), close)
}

/// Brackets still open from token `i` back through token `j`, going back.
pub open spec fn depth_back(tokens: Seq<Token>, i: int, j: int, open: Tok, close: Tok) -> int {
    count_kind(tokens.subrange(j, i + 1), close) - count_kind(tokens.subrange(j, i + 1), open)
}

/// `j` is the partner of bracket `i`: the first token, scanning away from
/// it, at which every bracket of its kind opened since is closed again.
pub open spec fn is_partner(tokens: Seq<Token>, i: int, j: int) -> bool {
    let (open, close, forward) = pair_of(tokens[i].kind);
    if forward {
        &&& i <= j < tokens.len()
        &&& depth_fwd(tokens, i, j, open, close) == 0
        &&& forall|k: int| i <= k < j ==> depth_fwd(tokens, i, k, open, close) != 0
    } else {
        &&& 0 <= j <= i
        &&& depth_back(tokens, i, j, open, close) == 0
        &&& forall|k: int| j < k <= i ==> depth_back(tokens, i, k, open, close) != 0
    }
}

/// The bracket token at the cursor: one ending right before it, else one
/// starting at it.
pub open spec fn bracket_at_cursor(b: Seq<u8>, pos: int, tokens: Seq<Token>) -> Option<int> {
    let before = if pos > 0 {
        first_where(tokens, bracket_starting(prev_boundary_spec(b, pos)))
    } else {
        None
    };
    match before {
        Some(i) => Some(i),
        None => if pos < b.len() {
            first_where(tokens, bracket_starting(pos))
        } else {
            None
        },
    }
}

/// The two ranges to highlight: the bracket at the cursor and its partner,
/// or an empty range at the bracket when it has none.
pub open spec fn matching_spec(b: Seq<u8>, sel: Selection, tokens: Seq<Token>) -> Option<((int, int), (int, int))> {
    if sel.anchor != sel.head {
        None
    } else {
        match bracket_at_cursor(b, sel.head as int, tokens) {
            None => None,
            Some(i) => {
                let t = tokens[i];
                if exists|j: int| is_partner(tokens, i, j) {
                    let j = choose|j: int| is_partner(tokens, i, j);
                    Some(((t.from as int, t.to as int), (tokens[j].from as int, tokens[j].to as int)))
                } else {
                    Some(((t.from as int, t.to as int), (t.from as int, t.from as int)))
                }
            },
        }
    }
}

proof fn lemma_partner_unique(tokens: Seq<Token>, i: int, j: int, j2: int)
    requires
        is_partner(tokens, i, j),
        is_partner(tokens, i, j2),
    ensures
        j == j2,
{
    let (open, close, forward) = pair_of(tokens[i].kind);
    if j < j2 {
        if forward {
            assert(depth_fwd(tokens, i, j, open, close) != 0);
        } else {
            assert(depth_back(tokens, i, j2, open, close) != 0);
        }
    } else if j2 < j {
        if forward {
            assert(depth_fwd(tokens, i, j2, open, close) != 0);
        } else {
            assert(depth_back(tokens, i, j, open, close) != 0);
        }
    }
}

fn bracket_index(tokens: &[Token], at: usize) -> (r: Option<usize>)
    ensures
        match r {
            Some(i) => first_where(tokens@, bracket_starting(at as int)) == Some(i as int),
            None => first_where(tokens@, bracket_starting(at as int)) is None,
        },
{
    let ghost p = bracket_starting(at as int);
    let mut i: usize = 0;
    while i < tokens.len()
        invariant
            i <= tokens@.len(),
            p == bracket_starting(at as int),
            forall|k: int| 0 <= k < i ==> !p(#[trigger] tokens@[k]),
        decreases tokens@.len() - i,
    {
        let t = tokens[i];
        if t.from == at && is_bracket_kind(t.kind) {
            proof {
                lemma_first_found(tokens@, p, i as int);
            }
            return Some(i);
        }
        i += 1;
    }
    proof {
        lemma_first_none(tokens@, p);
    }
    None
}

fn pair_kinds(k: Tok) -> (r: (Tok, Tok, bool))
    ensures
        r == pair_of(k),
{
    match k {
        Tok::ParenL => (Tok::ParenL, Tok::ParenR, true),
        Tok::ParenR => (Tok::ParenL, Tok::ParenR, false),
        Tok::BracketL => (Tok::BracketL, Tok::BracketR, true),
        Tok::BracketR => (Tok::BracketL, Tok::BracketR, false),
        Tok::BraceL => (Tok::BraceL, Tok::BraceR, true),
        _ => (Tok::BraceL, Tok::BraceR, false),
    }
}

proof fn lemma_count_first(s: Seq<Token>, k: Tok)
    requires
        s.len() > 0,
    ensures
        count_kind(s, k) == count_kind(s.drop_first(), k) + if s[0].kind == k {
            1int
        } else {
            0
        },
    decreases s.len(),
{
    if s.len() > 1 {
        lemma_count_first(s.drop_last(), k);
        assert(s.drop_last().drop_first() =~= s.drop_first().drop_last());
        assert(s.drop_first().last() == s.last());
    } else {
        assert(s.drop_last() =~= Seq::<Token>::empty());
        assert(s.drop_first() =~= Seq::<Token>::empty());
    }
}

/// The partner of bracket `i`, if any.
fn partner(tokens: &[Token], i: usize) -> (r: Option<usize>)
    requires
        i < tokens@.len(),
        is_bracket(tokens@[i as int].kind),
    ensures
        match r {
            Some(j) => is_partner(tokens@, i as int, j as int),
            None => forall|j: int| !is_partner(tokens@, i as int, j),
        },
{
    let (open, close, forward) = pair_kinds(tokens[i].kind);
    let ghost s = tokens@;
    let mut depth: usize = 0;
    if forward {
        let mut j: usize = i;
        while j < tokens.len()
            invariant
                s == tokens@,
                i < s.len(),
                is_bracket(s[i as int].kind),
                (open, close, forward) == pair_of(s[i as int].kind),
                forward,
                i <= j <= s.len(),
                depth == depth_fwd(s, i as int, j - 1, open, close),
                j == i ==> depth == 0,
                j > i ==> 1 <= depth <= j - i,
                forall|k: int| i <= k < j ==> depth_fwd(s, i as int, k, open, close) != 0,
            decreases s.len() - j,
        {
            proof {
                assert(s.subrange(i as int, j + 1).drop_last() =~= s.subrange(i as int, j as int));
                assert(s.subrange(i as int, j + 1).last() == s[j as int]);
                if j == i {
                    assert(s.subrange(i as int, j as int) =~= Seq::<Token>::empty());
                }
            }
            let t = tokens[j];
            if t.kind == open {
                depth = depth + 1;
            } else if t.kind == close {
                depth = depth - 1;
                if depth == 0 {
                    return Some(j);
                }
            }
            j += 1;
        }
        proof {
            assert forall|jj: int| !is_partner(s, i as int, jj) by {
                if is_partner(s, i as int, jj) {
                    assert(depth_fwd(s, i as int, jj, open, close) == 0);
                }
            }
        }
        None
    } else {
        let mut j: usize = i + 1;
        while j > 0
            invariant
                s == tokens@,
                i < s.len(),
                is_bracket(s[i as int].kind),
                (open, close, forward) == pair_of(s[i as int].kind),
                !forward,
                0 <= j <= i + 1,
                depth == depth_back(s, i as int, j as int, open, close),
                j == i + 1 ==> depth == 0,
                j <= i ==> 1 <= depth <= i + 1 - j,
                forall|k: int| j <= k <= i ==> depth_back(s, i as int, k, open, close) != 0,
            decreases j,
        {
            let k = j - 1;
            proof {
                assert(s.subrange(k as int, i + 1).drop_first() =~= s.subrange(j as int, i + 1));
                assert(s.subrange(k as int, i + 1)[0] == s[k as int]);
                lemma_count_first(s.subrange(k as int, i + 1), open);
                lemma_count_first(s.subrange(k as int, i + 1), close);
                if j == i + 1 {
                    assert(s.subrange(j as int, i + 1) =~= Seq::<Token>::empty());
                }
            }
            let t = tokens[k];
            if t.kind == close {
                depth = depth + 1;
            } else if t.kind == open {
                depth = depth - 1;
                if depth == 0 {
                    return Some(k);
                }
            }
            j = k;
        }
        proof {
            assert forall|jj: int| !is_partner(s, i as int, jj) by {
                if is_partner(s, i as int, jj) {
                    assert(depth_back(s, i as int, jj, open, close) == 0);
                }
            }
        }
        None
    }
}

/// The bracket at the cursor and its partner, for the editor to highlight:
/// none with a selection or without a bracket next to the cursor, and an
/// empty second range when the bracket has no partner.
pub fn matching_brackets(buffer: &Buffer, tokens: &[Token]) -> (r: Option<(Range<usize>, Range<usize>)>)
    requires
        buffer.wf(),
        buffer.sel().head <= buffer.bytes().len(),
        is_char_boundary(buffer.bytes(), buffer.sel().head as int),
    ensures
        match r {
            Some((a, c)) => matching_spec(buffer.bytes(), buffer.sel(), tokens@) == Some(
                ((a.start as int, a.end as int), (c.start as int, c.end as int)),
            ),
            None => matching_spec(buffer.bytes(), buffer.sel(), tokens@) is None,
        },
{
    let sel = buffer.selection();
    if !sel.is_empty() {
        return None;
    }
    let pos = sel.head;
    let ghost b = buffer.bytes();
    let mut found: Option<usize> = None;
    if pos > 0 {
        let p = buffer.prev_char(pos);
        found = bracket_index(tokens, p);
    }
    if found.is_none() && pos < buffer.len() {
        found = bracket_index(tokens, pos);
    }
    proof {
        assert(found == match bracket_at_cursor(b, pos as int, tokens@) {
            Some(i) => Some(i as usize),
            None => None::<usize>,
        }) by {
            if pos > 0 {
                let bf = first_where(tokens@, bracket_starting(prev_boundary_spec(b, pos as int)));
                if bf is Some {
                    lemma_first_some(tokens@, bracket_starting(prev_boundary_spec(b, pos as int)));
                }
            }
            if pos < b.len() {
                let af = first_where(tokens@, bracket_starting(pos as int));
                if af is Some {
                    lemma_first_some(tokens@, bracket_starting(pos as int));
                }
            }
        }
    }
    match found {
        None => None,
        Some(i) => {
            proof {
                let bf = bracket_at_cursor(b, pos as int, tokens@);
                if pos > 0 && first_where(tokens@, bracket_starting(prev_boundary_spec(b, pos as int))) is Some {
                    lemma_first_some(tokens@, bracket_starting(prev_boundary_spec(b, pos as int)));
                } else {
                    lemma_first_some(tokens@, bracket_starting(pos as int));
                }
            }
            let t = tokens[i];
            match partner(tokens, i) {
                Some(j) => {
                    proof {
                        let jj = choose|jj: int| is_partner(tokens@, i as int, jj);
                        lemma_partner_unique(tokens@, i as int, j as int, jj);
                    }
                    Some((t.from..t.to, tokens[j].from..tokens[j].to))
                },
                None => Some((t.from..t.to, t.from..t.from)),
            }
        },
    }
}

} // verus!
