//! The scanner: turns the raw bytes of one input line into a stream of tokens.
//!
//! Tokenization is specified by pure functions over the byte sequence: where
//! the next token starts after skipping whitespace (`ws_end`), what kind it is
//! (`tok_kind`), its exact text (`tok_spelling`), and where scanning resumes
//! (`tok_end`). `next_token` is proved to follow them exactly.

use vstd::prelude::*;
use vstd::slice::slice_subrange;
use vstd::string::{StrSliceExecFns, StringSliceAdditionalSpecFns};
use crate::token::{Token, TokenType};

verus! {

/// ASCII whitespace: space, tab, line feed, form feed, carriage return.
pub open spec fn is_ws_byte(b: u8) -> bool {
    b == 32 || b == 9 || b == 10 || b == 12 || b == 13
}

/// An ASCII decimal digit.
pub open spec fn is_digit_byte(b: u8) -> bool {
    48 <= b && b <= 57
}

/// The bytes reinterpreted as the ASCII characters they spell.
pub open spec fn chars_of(s: Seq<u8>) -> Seq<char> {
    s.map(|_k: int, b: u8| b as char)
}

/// The first position at or after `i` that does not hold whitespace.
pub open spec fn ws_end(s: Seq<u8>, i: int) -> int
    decreases s.len() - i,
{
    if 0 <= i < s.len() && is_ws_byte(s[i]) {
        ws_end(s, i + 1)
    } else {
        i
    }
}

/// The first position at or after `i` that does not hold a digit.
pub open spec fn num_end(s: Seq<u8>, i: int) -> int
    decreases s.len() - i,
{
    if 0 <= i < s.len() && is_digit_byte(s[i]) {
        num_end(s, i + 1)
    } else {
        i
    }
}

/// The kind of token a byte begins.
pub open spec fn byte_kind(b: u8) -> TokenType {
    if b == 40 {
        TokenType::LParen
    } else if b == 41 {
        TokenType::RParen
    } else if b == 43 {
        TokenType::Plus
    } else if b == 45 {
        TokenType::Minus
    } else if b == 42 {
        TokenType::Asterisk
    } else if b == 47 {
        TokenType::Slash
    } else if is_digit_byte(b) {
        TokenType::Int
    } else {
        TokenType::Illegal
    }
}

/// The kind of the token that starts at or after position `i`.
pub open spec fn tok_kind(s: Seq<u8>, i: int) -> TokenType {
    let j = ws_end(s, i);
    if j >= s.len() {
        TokenType::Eof
    } else {
        byte_kind(s[j])
    }
}

/// The position just past the token that starts at or after position `i`;
/// scanning for the next token resumes there.
pub open spec fn tok_end(s: Seq<u8>, i: int) -> int {
    let j = ws_end(s, i);
    if j >= s.len() {
        j
    } else if is_digit_byte(s[j]) {
        num_end(s, j)
    } else {
        j + 1
    }
}

/// The exact text of the token that starts at or after position `i`:
/// the digit run for an integer literal, the single character for an
/// operator or parenthesis, and empty for `Eof` and `Illegal`.
pub open spec fn tok_spelling(s: Seq<u8>, i: int) -> Seq<char> {
    let j = ws_end(s, i);
    if j >= s.len() {
        Seq::empty()
    } else if is_digit_byte(s[j]) {
        chars_of(s.subrange(j, num_end(s, j)))
    } else if byte_kind(s[j]) == TokenType::Illegal {
        Seq::empty()
    } else {
        seq![s[j] as char]
    }
}

/// Skipping whitespace never moves backwards nor past the end, skips only
/// whitespace, and stops at the first byte that is not whitespace.
pub proof fn lemma_ws_end(s: Seq<u8>, i: int)
    requires
        0 <= i <= s.len(),
    ensures
        i <= ws_end(s, i) <= s.len(),
        ws_end(s, i) < s.len() ==> !is_ws_byte(s[ws_end(s, i)]),
        forall|k: int| i <= k < ws_end(s, i) ==> is_ws_byte(s[k]),
    decreases s.len() - i,
{
    if i < s.len() && is_ws_byte(s[i]) {
        lemma_ws_end(s, i + 1);
    }
}

/// The digit run starting at `i` never moves backwards nor past the end,
/// covers only digits, and ends at the first byte that is not a digit.
pub proof fn lemma_num_end(s: Seq<u8>, i: int)
    requires
        0 <= i <= s.len(),
    ensures
        i <= num_end(s, i) <= s.len(),
        num_end(s, i) < s.len() ==> !is_digit_byte(s[num_end(s, i)]),
        forall|k: int| i <= k < num_end(s, i) ==> is_digit_byte(s[k]),
    decreases s.len() - i,
{
    if i < s.len() && is_digit_byte(s[i]) {
        lemma_num_end(s, i + 1);
    }
}

/// Whitespace skipping stops exactly at the first position that does not
/// hold whitespace.
pub proof fn lemma_ws_end_is(s: Seq<u8>, i: int, m: int)
    requires
        0 <= i <= m <= s.len(),
        forall|k: int| i <= k < m ==> is_ws_byte(s[k]),
        m < s.len() ==> !is_ws_byte(s[m]),
    ensures
        ws_end(s, i) == m,
    decreases m - i,
{
    if i < m {
        lemma_ws_end_is(s, i + 1, m);
    }
}

/// A digit run ends exactly at the first position that does not hold a digit.
pub proof fn lemma_num_end_is(s: Seq<u8>, i: int, m: int)
    requires
        0 <= i <= m <= s.len(),
        forall|k: int| i <= k < m ==> is_digit_byte(s[k]),
        m < s.len() ==> !is_digit_byte(s[m]),
    ensures
        num_end(s, i) == m,
    decreases m - i,
{
    if i < m {
        lemma_num_end_is(s, i + 1, m);
    }
}

/// Every token ends within the input, a token that is not `Eof` takes at
/// least one byte, and `Eof` is seen exactly at the end of the input.
pub proof fn lemma_tok_end(s: Seq<u8>, i: int)
    requires
        0 <= i <= s.len(),
    ensures
        i <= tok_end(s, i) <= s.len(),
        tok_kind(s, i) != TokenType::Eof ==> i < tok_end(s, i),
        tok_kind(s, i) == TokenType::Eof ==> tok_end(s, i) == s.len(),
{
    lemma_ws_end(s, i);
    let j = ws_end(s, i);
    if j < s.len() && is_digit_byte(s[j]) {
        lemma_num_end(s, j);
    }
}

/// Relies on `String::from_utf8`: bytes below 0x80 are ASCII, which UTF-8
/// encodes one to one, so they decode to the chars with the same code points.
#[verifier::external_body]
pub(crate) fn ascii_to_string(bytes: &[u8]) -> (r: String)
    requires
        forall|k: int| 0 <= k < bytes@.len() ==> bytes@[k] < 128,
    ensures
        r@ == chars_of(bytes@),
{
    match String::from_utf8(bytes.to_vec()) {
        Ok(s) => s,
        Err(_) => String::new(),
    }
}

fn is_whitespace_byte(b: u8) -> (r: bool)
    ensures
        r == is_ws_byte(b),
{
    b == 32 || b == 9 || b == 10 || b == 12 || b == 13
}

fn is_decimal_byte(b: u8) -> (r: bool)
    ensures
        r == is_digit_byte(b),
{
    48 <= b && b <= 57
}

/// The scanner: the bytes of the input line and a cursor into them.
pub struct Lexer {
    input: Vec<u8>,
    position: usize,
}

impl Lexer {
    /// The bytes being scanned.
    pub closed spec fn bytes(self) -> Seq<u8> {
        self.input@
    }

    /// The cursor: the position scanning resumes from.
    pub closed spec fn pos(self) -> int {
        self.position as int
    }

    pub open spec fn wf(self) -> bool {
        0 <= self.pos() <= self.bytes().len()
    }

    pub fn new(input: &str) -> (l: Lexer)
        ensures
            l.wf(),
            l.bytes() == input.spec_bytes(),
            l.pos() == 0,
    {
        Lexer { input: input.as_bytes_vec(), position: 0 }
    }

    /// Advance the cursor one byte, unless it is already at the end.
    fn read_char(&mut self)
        requires
            old(self).wf(),
        ensures
            final(self).wf(),
            final(self).bytes() == old(self).bytes(),
            final(self).pos() == (if old(self).pos() < old(self).bytes().len() {
                old(self).pos() + 1
            } else {
                old(self).pos()
            }),
    {
        if self.position < self.input.len() {
            self.position = self.position + 1;
        }
    }

    /// Move the cursor past any run of whitespace.
    fn skip_whitespace(&mut self)
        requires
            old(self).wf(),
        ensures
            final(self).wf(),
            final(self).bytes() == old(self).bytes(),
            final(self).pos() == ws_end(old(self).bytes(), old(self).pos()),
    {
        let ghost s0 = self.bytes();
        let ghost p0 = self.pos();
        while self.position < self.input.len() && is_whitespace_byte(self.input[self.position])
            invariant
                self.wf(),
                self.bytes() == s0,
                ws_end(s0, self.pos()) == ws_end(s0, p0),
            decreases self.bytes().len() - self.pos(),
        {
            self.read_char();
        }
    }

    /// Read the maximal digit run under the cursor and return its text.
    fn read_number(&mut self) -> (r: String)
        requires
            old(self).wf(),
        ensures
            final(self).wf(),
            final(self).bytes() == old(self).bytes(),
            final(self).pos() == num_end(old(self).bytes(), old(self).pos()),
            r@ == chars_of(old(self).bytes().subrange(
                old(self).pos(),
                num_end(old(self).bytes(), old(self).pos()),
            )),
    {
        let ghost s0 = self.bytes();
        let ghost p0 = self.pos();
        let start_position = self.position;
        while self.position < self.input.len() && is_decimal_byte(self.input[self.position])
            invariant
                self.wf(),
                self.bytes() == s0,
                p0 <= self.pos() <= s0.len(),
                start_position as int == p0,
                num_end(s0, self.pos()) == num_end(s0, p0),
                forall|k: int| p0 <= k < self.pos() ==> is_digit_byte(s0[k]),
            decreases self.bytes().len() - self.pos(),
        {
            self.read_char();
        }
        proof {
            assert(self.pos() == num_end(s0, p0));
        }
        let run = slice_subrange(self.input.as_slice(), start_position, self.position);
        ascii_to_string(run)
    }

    /// Scan the next token and move the cursor past it. After the end of the
    /// input every call returns an `Eof` token.
    pub fn next_token(&mut self) -> (t: Token)
        requires
            old(self).wf(),
        ensures
            final(self).wf(),
            final(self).bytes() == old(self).bytes(),
            t.kind == tok_kind(old(self).bytes(), old(self).pos()),
            t.spelling@ == tok_spelling(old(self).bytes(), old(self).pos()),
            final(self).pos() == tok_end(old(self).bytes(), old(self).pos()),
    {
        let ghost s0 = self.bytes();
        let ghost p0 = self.pos();
        self.skip_whitespace();
        proof {
            lemma_ws_end(s0, p0);
        }
        if self.position >= self.input.len() {
            let t = Token::new(TokenType::Eof, "".to_owned());
            proof {
                reveal_strlit("");
                assert(t.spelling@ =~= tok_spelling(s0, p0));
            }
            return t;
        }
        let b = self.input[self.position];
        if b == 40 {
            self.read_char();
            let t = Token::new(TokenType::LParen, "(".to_owned());
            proof {
                reveal_strlit("(");
                assert(t.spelling@ =~= tok_spelling(s0, p0));
            }
            t
        } else if b == 41 {
            self.read_char();
            let t = Token::new(TokenType::RParen, ")".to_owned());
            proof {
                reveal_strlit(")");
                assert(t.spelling@ =~= tok_spelling(s0, p0));
            }
            t
        } else if b == 43 {
            self.read_char();
            let t = Token::new(TokenType::Plus, "+".to_owned());
            proof {
                reveal_strlit("+");
                assert(t.spelling@ =~= tok_spelling(s0, p0));
            }
            t
        } else if b == 45 {
            self.read_char();
            let t = Token::new(TokenType::Minus, "-".to_owned());
            proof {
                reveal_strlit("-");
                assert(t.spelling@ =~= tok_spelling(s0, p0));
            }
            t
        } else if b == 42 {
            self.read_char();
            let t = Token::new(TokenType::Asterisk, "*".to_owned());
            proof {
                reveal_strlit("*");
                assert(t.spelling@ =~= tok_spelling(s0, p0));
            }
            t
        } else if b == 47 {
            self.read_char();
            let t = Token::new(TokenType::Slash, "/".to_owned());
            proof {
                reveal_strlit("/");
                assert(t.spelling@ =~= tok_spelling(s0, p0));
            }
            t
        } else if is_decimal_byte(b) {
            let spelling = self.read_number();
            Token::new(TokenType::Int, spelling)
        } else {
            self.read_char();
            let t = Token::new(TokenType::Illegal, "".to_owned());
            proof {
                reveal_strlit("");
                assert(t.spelling@ =~= tok_spelling(s0, p0));
            }
            t
        }
    }
}

} // verus!
