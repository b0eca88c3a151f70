//! Lexical tokens: the smallest units the scanner hands to the parser.

use vstd::prelude::*;

verus! {

/// The kind of a lexical token.
#[derive(Debug, Clone, Copy, PartialEq, Eq, Structural)]
pub enum TokenType {
    Asterisk,
    Eof,
    Illegal,
    Int,
    LParen,
    Minus,
    Plus,
    RParen,
    Slash,
}

/// A token: its kind together with the exact text that was matched.
///
/// `spelling` is the matched substring for integer literals and the
/// single-character operators; it is empty for `Eof` and `Illegal`.
#[derive(Debug)]
pub struct Token {
    pub kind: TokenType,
    pub spelling: String,
}

impl Token {
    pub fn new(kind: TokenType, spelling: String) -> (t: Token)
        ensures
            t.kind == kind,
            t.spelling == spelling,
    {
        Token { kind, spelling }
    }
}

} // verus!
