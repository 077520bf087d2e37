//! Tokens of the SQL text as the editor's tokenizer hands them over: a kind
//! and a byte range.
use vstd::prelude::*;

verus! {

/// The kind of a token.
#[derive(Clone, Copy, Debug, PartialEq, Eq, Structural)]
pub enum Tok {
    Keyword,
    Type,
    Number,
    Bits,
    Builtin,
    Bool,
    String,
    Bytes,
    Identifier,
    SpecialVar,
    QuotedIdentifier,
    Operator,
    LineComment,
    BlockComment,
    ParenL,
    ParenR,
    BracketL,
    BracketR,
    BraceL,
    BraceR,
    Semi,
    /// Anything else: white space, punctuation.
    Other,
}

/// A token of the editor's text: its kind and its byte range.
#[derive(Clone, Copy, Debug, PartialEq, Eq, Structural)]
pub struct Token {
    pub kind: Tok,
    pub from: usize,
    pub to: usize,
}

/// A round, square or curly bracket.
pub open spec fn is_bracket(k: Tok) -> bool {
    ||| k == Tok::ParenL
    ||| k == Tok::ParenR
    ||| k == Tok::BracketL
    ||| k == Tok::BracketR
    ||| k == Tok::BraceL
    ||| k == Tok::BraceR
}

/// Whether a kind is a bracket.
pub fn is_bracket_kind(k: Tok) -> (r: bool)
    ensures
        r == is_bracket(k),
{
    match k {
        Tok::ParenL | Tok::ParenR | Tok::BracketL | Tok::BracketR | Tok::BraceL | Tok::BraceR => true,
        _ => false,
    }
}

} // verus!
