use multidb::buffer::Buffer;
use multidb::highlight::{line_runs, token_color, Palette};
use multidb::tokens::{Tok, Token};

fn tok(kind: Tok, from: usize, to: usize) -> Token {
    Token { kind, from, to }
}

#[test]
fn token_kinds_take_the_one_dark_colours() {
    assert_eq!(token_color(Tok::Keyword), Palette::Violet);
    assert_eq!(token_color(Tok::Number), Palette::Chalky);
    assert_eq!(token_color(Tok::Bool), Palette::Whiskey);
    assert_eq!(token_color(Tok::String), Palette::Sage);
    assert_eq!(token_color(Tok::SpecialVar), Palette::Coral);
    assert_eq!(token_color(Tok::Operator), Palette::Cyan);
    assert_eq!(token_color(Tok::BlockComment), Palette::Stone);
    assert_eq!(token_color(Tok::ParenL), Palette::Ivory);
    assert_eq!(token_color(Tok::Other), Palette::Ivory);
}

#[test]
fn a_line_is_cut_into_runs_by_its_tokens() {
    let b = Buffer::new("select a -- c\nfrom t");
    let toks = vec![
        tok(Tok::Keyword, 0, 6),
        tok(Tok::Other, 6, 7),
        tok(Tok::Identifier, 7, 8),
        tok(Tok::Other, 8, 9),
        tok(Tok::LineComment, 9, 13),
        tok(Tok::Keyword, 14, 18),
        tok(Tok::Identifier, 19, 20),
    ];
    assert_eq!(
        line_runs(&b, &toks, 0),
        vec![(6, Palette::Violet), (1, Palette::Ivory), (1, Palette::Coral), (1, Palette::Ivory), (4, Palette::Stone)]
    );
    assert_eq!(line_runs(&b, &toks, 1), vec![(4, Palette::Violet), (1, Palette::Ivory), (1, Palette::Coral)]);
}

#[test]
fn a_token_over_a_line_break_colours_both_lines() {
    let b = Buffer::new("a /* x\ny */ b");
    let toks = vec![tok(Tok::Identifier, 0, 1), tok(Tok::BlockComment, 2, 11), tok(Tok::Identifier, 12, 13)];
    assert_eq!(line_runs(&b, &toks, 0), vec![(1, Palette::Coral), (1, Palette::Ivory), (4, Palette::Stone)]);
    assert_eq!(line_runs(&b, &toks, 1), vec![(4, Palette::Stone), (1, Palette::Ivory), (1, Palette::Coral)]);
}

#[test]
fn neighbours_of_one_colour_share_a_run() {
    let b = Buffer::new("ab 1");
    let toks = vec![tok(Tok::Identifier, 0, 1), tok(Tok::SpecialVar, 1, 2), tok(Tok::Number, 3, 4)];
    assert_eq!(line_runs(&b, &toks, 0), vec![(2, Palette::Coral), (1, Palette::Ivory), (1, Palette::Chalky)]);
    let empty = Buffer::new("");
    assert_eq!(line_runs(&empty, &Vec::new(), 0), vec![]);
}
