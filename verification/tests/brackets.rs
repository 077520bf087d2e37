use multidb::brackets::matching_brackets;
use multidb::tokens::{Tok, Token};
use multidb::buffer::{Buffer, Selection};

fn buf(text: &str, anchor: usize, head: usize) -> Buffer {
    let mut b = Buffer::new(text);
    b.selection = Selection { anchor, head };
    b
}

fn tok(kind: Tok, from: usize, to: usize) -> Token {
    Token { kind, from, to }
}

// f(a[1])
fn tokens() -> Vec<Token> {
    vec![
        tok(Tok::Other, 0, 1),
        tok(Tok::ParenL, 1, 2),
        tok(Tok::Other, 2, 3),
        tok(Tok::BracketL, 3, 4),
        tok(Tok::Other, 4, 5),
        tok(Tok::BracketR, 5, 6),
        tok(Tok::ParenR, 6, 7),
    ]
}

#[test]
fn the_bracket_before_the_cursor_is_matched_first() {
    let b = buf("f(a[1])", 2, 2);
    assert_eq!(matching_brackets(&b, &tokens()), Some((1..2, 6..7)));
    // Between `]` and `)`: the `]` before the cursor wins.
    let b = buf("f(a[1])", 6, 6);
    assert_eq!(matching_brackets(&b, &tokens()), Some((5..6, 3..4)));
}

#[test]
fn a_closing_bracket_finds_its_opener_backwards() {
    let b = buf("f(a[1])", 7, 7);
    assert_eq!(matching_brackets(&b, &tokens()), Some((6..7, 1..2)));
}

#[test]
fn the_bracket_after_the_cursor_counts_too() {
    let b = buf("f(a[1])", 1, 1);
    assert_eq!(matching_brackets(&b, &tokens()), Some((1..2, 6..7)));
}

#[test]
fn no_bracket_or_a_selection_matches_nothing() {
    let b = buf("f(a[1])", 0, 0);
    assert_eq!(matching_brackets(&b, &tokens()), None);
    let s = buf("f(a[1])", 1, 2);
    assert_eq!(matching_brackets(&s, &tokens()), None);
}

#[test]
fn an_unmatched_bracket_gets_an_empty_partner() {
    let b = buf("(a", 1, 1);
    let toks = vec![tok(Tok::ParenL, 0, 1), tok(Tok::Other, 1, 2)];
    assert_eq!(matching_brackets(&b, &toks), Some((0..1, 0..0)));
}

#[test]
fn nested_brackets_of_one_kind_pair_by_depth() {
    let b = buf("(())", 1, 1);
    let toks = vec![tok(Tok::ParenL, 0, 1), tok(Tok::ParenL, 1, 2), tok(Tok::ParenR, 2, 3), tok(Tok::ParenR, 3, 4)];
    assert_eq!(matching_brackets(&b, &toks), Some((0..1, 3..4)));
    let c = buf("(())", 2, 2);
    assert_eq!(matching_brackets(&c, &toks), Some((1..2, 2..3)));
}
