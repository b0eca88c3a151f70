//! The parser: consumes the token stream and builds an expression tree.
//!
//! The grammar, with two precedence tiers, right-associative at each tier:
//!
//! ```text
//! start      ::= expression EndOfInput
//! expression ::= term ( '+' expression | '-' expression | epsilon )
//! term       ::= factor ( '*' term | '/' term | epsilon )
//! factor     ::= '(' expression ')' | integer_literal
//! ```
//!
//! The grammar is specified by the pure functions `sp_expr`, `sp_term` and
//! `sp_factor` over the input bytes; they take a fuel argument to bound their
//! recursion, and `parse_fuel` is always enough (`lemma_sp_expr_fuel`). The
//! executable parser is proved to return exactly what they describe,
//! including which syntax error is reported for each rejected input.

use vstd::prelude::*;
use crate::ast::{
    dec_rep, lemma_dec_rep_digits, lemma_render_ascii, render_bytes, wf_tree,
    ArithmeticExpression,
};
use crate::lexer::{
    is_digit_byte, lemma_num_end, lemma_num_end_is, lemma_tok_end, lemma_ws_end_is, num_end,
    tok_end, tok_kind, tok_spelling, ws_end, chars_of, Lexer,
};
use crate::token::{Token, TokenType};

verus! {

/// Why an input line was rejected.
#[derive(Debug, Clone, Copy, PartialEq, Eq, Structural)]
pub enum SyntaxError {
    /// A specific token kind was required but another was found.
    UnexpectedToken { expected: TokenType, found: TokenType },
    /// A factor must start with a parenthesis or an integer literal.
    InvalidFactor { found: TokenType },
    /// The scanner produced an `Illegal` token: a lexical error.
    IllegalToken,
    /// An integer literal does not fit the evaluator's integer width.
    MalformedInteger,
}

/// The non-negative integer a run of ASCII digit bytes spells in decimal.
pub open spec fn digits_value(s: Seq<u8>) -> int
    decreases s.len(),
{
    if s.len() == 0 {
        0
    } else {
        digits_value(s.drop_last()) * 10 + (s.last() - 48)
    }
}

pub proof fn lemma_digits_value_nonneg(s: Seq<u8>)
    requires
        forall|k: int| 0 <= k < s.len() ==> is_digit_byte(s[k]),
    ensures
        digits_value(s) >= 0,
    decreases s.len(),
{
    if s.len() > 0 {
        lemma_digits_value_nonneg(s.drop_last());
    }
}

/// A digit run spells at least as much as any of its prefixes.
pub proof fn lemma_digits_prefix_le(s: Seq<u8>, k: int)
    requires
        forall|m: int| 0 <= m < s.len() ==> is_digit_byte(s[m]),
        0 <= k <= s.len(),
    ensures
        digits_value(s.subrange(0, k)) <= digits_value(s),
    decreases s.len() - k,
{
    if k == s.len() {
        assert(s.subrange(0, k) =~= s);
    } else {
        lemma_digits_prefix_le(s, k + 1);
        let p = s.subrange(0, k);
        let q = s.subrange(0, k + 1);
        assert(q.drop_last() =~= p);
        assert(q.last() == s[k]);
        lemma_digits_value_nonneg(p);
    }
}

/// The operator bytes of the term tier, `*` and `/`, which bind tighter
/// than `+` and `-`.
pub open spec fn is_term_op(op: u8) -> bool {
    op == 42 || op == 47
}

/// Always enough fuel for the grammar functions below on input `s` from
/// position `i` (see `lemma_sp_expr_fuel`).
pub open spec fn parse_fuel(s: Seq<u8>, i: int) -> nat {
    (s.len() - i + 1) as nat
}

/// The digit run of the integer literal token at or after position `i`.
pub open spec fn int_run(s: Seq<u8>, i: int) -> Seq<u8> {
    s.subrange(ws_end(s, i), num_end(s, ws_end(s, i)))
}

/// `factor ::= '(' expression ')' | integer_literal`, starting at position
/// `i`. `None` means the fuel ran out; otherwise the result is the parsed
/// subtree with the position just past it, or the syntax error reported.
pub open spec fn sp_factor(s: Seq<u8>, i: int, fuel: nat) -> Option<
    Result<(ArithmeticExpression, int), SyntaxError>,
>
    decreases fuel, 0int,
{
    if fuel == 0 {
        None
    } else {
        let k = tok_kind(s, i);
        if k == TokenType::LParen {
            match sp_expr(s, tok_end(s, i), (fuel - 1) as nat) {
                None => None,
                Some(Err(e)) => Some(Err(e)),
                Some(Ok((t, j))) => {
                    if tok_kind(s, j) == TokenType::RParen {
                        Some(Ok((t, tok_end(s, j))))
                    } else {
                        Some(
                            Err(
                                SyntaxError::UnexpectedToken {
                                    expected: TokenType::RParen,
                                    found: tok_kind(s, j),
                                },
                            ),
                        )
                    }
                },
            }
        } else if k == TokenType::Int {
            if digits_value(int_run(s, i)) <= i32::MAX {
                Some(
                    Ok(
                        (
                            ArithmeticExpression::Value(digits_value(int_run(s, i)) as i32),
                            tok_end(s, i),
                        ),
                    ),
                )
            } else {
                Some(Err(SyntaxError::MalformedInteger))
            }
        } else {
            Some(Err(SyntaxError::InvalidFactor { found: k }))
        }
    }
}

/// `term ::= factor ( '*' term | '/' term | epsilon )`, starting at `i`.
pub open spec fn sp_term(s: Seq<u8>, i: int, fuel: nat) -> Option<
    Result<(ArithmeticExpression, int), SyntaxError>,
>
    decreases fuel, 1int,
{
    if fuel == 0 {
        None
    } else {
        match sp_factor(s, i, fuel) {
            None => None,
            Some(Err(e)) => Some(Err(e)),
            Some(Ok((t, j))) => {
                let k = tok_kind(s, j);
                if k == TokenType::Asterisk {
                    match sp_term(s, tok_end(s, j), (fuel - 1) as nat) {
                        None => None,
                        Some(Err(e)) => Some(Err(e)),
                        Some(Ok((u, m))) => Some(
                            Ok((ArithmeticExpression::Mul(Box::new(t), Box::new(u)), m)),
                        ),
                    }
                } else if k == TokenType::Slash {
                    match sp_term(s, tok_end(s, j), (fuel - 1) as nat) {
                        None => None,
                        Some(Err(e)) => Some(Err(e)),
                        Some(Ok((u, m))) => Some(
                            Ok((ArithmeticExpression::Div(Box::new(t), Box::new(u)), m)),
                        ),
                    }
                } else if k == TokenType::Illegal {
                    Some(Err(SyntaxError::IllegalToken))
                } else {
                    Some(Ok((t, j)))
                }
            },
        }
    }
}

/// `expression ::= term ( '+' expression | '-' expression | epsilon )`,
/// starting at `i`. The operand after the operator is a whole expression,
/// which is what makes `+` and `-` right-associative.
pub open spec fn sp_expr(s: Seq<u8>, i: int, fuel: nat) -> Option<
    Result<(ArithmeticExpression, int), SyntaxError>,
>
    decreases fuel, 2int,
{
    if fuel == 0 {
        None
    } else {
        match sp_term(s, i, fuel) {
            None => None,
            Some(Err(e)) => Some(Err(e)),
            Some(Ok((t, j))) => {
                let k = tok_kind(s, j);
                if k == TokenType::Plus {
                    match sp_expr(s, tok_end(s, j), (fuel - 1) as nat) {
                        None => None,
                        Some(Err(e)) => Some(Err(e)),
                        Some(Ok((u, m))) => Some(
                            Ok((ArithmeticExpression::Add(Box::new(t), Box::new(u)), m)),
                        ),
                    }
                } else if k == TokenType::Minus {
                    match sp_expr(s, tok_end(s, j), (fuel - 1) as nat) {
                        None => None,
                        Some(Err(e)) => Some(Err(e)),
                        Some(Ok((u, m))) => Some(
                            Ok((ArithmeticExpression::Sub(Box::new(t), Box::new(u)), m)),
                        ),
                    }
                } else if k == TokenType::Illegal {
                    Some(Err(SyntaxError::IllegalToken))
                } else {
                    Some(Ok((t, j)))
                }
            },
        }
    }
}

/// `start ::= expression EndOfInput`: the whole input line from position `i`
/// must be one expression followed by the end of the input.
pub open spec fn sp_start(s: Seq<u8>, i: int) -> Option<
    Result<ArithmeticExpression, SyntaxError>,
> {
    match sp_expr(s, i, parse_fuel(s, i)) {
        None => None,
        Some(Err(e)) => Some(Err(e)),
        Some(Ok((t, j))) => {
            if tok_kind(s, j) == TokenType::Eof {
                Some(Ok(t))
            } else {
                Some(
                    Err(
                        SyntaxError::UnexpectedToken {
                            expected: TokenType::Eof,
                            found: tok_kind(s, j),
                        },
                    ),
                )
            }
        },
    }
}

/// A successfully parsed factor ends between where it started and the end of
/// the input.
proof fn lemma_sp_factor_pos(s: Seq<u8>, i: int, fuel: nat)
    requires
        0 <= i <= s.len(),
    ensures
        (match sp_factor(s, i, fuel) {
            Some(Ok((t, j))) => i <= j <= s.len(),
            _ => true,
        }),
    decreases fuel, 0int,
{
    if fuel > 0 {
        lemma_tok_end(s, i);
        if tok_kind(s, i) == TokenType::LParen {
            lemma_sp_expr_pos(s, tok_end(s, i), (fuel - 1) as nat);
            match sp_expr(s, tok_end(s, i), (fuel - 1) as nat) {
                Some(Ok((t, j))) => {
                    lemma_tok_end(s, j);
                },
                _ => {},
            }
        }
    }
}

/// A successfully parsed term ends between where it started and the end of
/// the input.
proof fn lemma_sp_term_pos(s: Seq<u8>, i: int, fuel: nat)
    requires
        0 <= i <= s.len(),
    ensures
        (match sp_term(s, i, fuel) {
            Some(Ok((t, j))) => i <= j <= s.len(),
            _ => true,
        }),
    decreases fuel, 1int,
{
    if fuel > 0 {
        lemma_sp_factor_pos(s, i, fuel);
        match sp_factor(s, i, fuel) {
            Some(Ok((t, j))) => {
                lemma_tok_end(s, j);
                let k = tok_kind(s, j);
                if k == TokenType::Asterisk || k == TokenType::Slash {
                    lemma_sp_term_pos(s, tok_end(s, j), (fuel - 1) as nat);
                }
            },
            _ => {},
        }
    }
}

/// A successfully parsed expression ends between where it started and the
/// end of the input.
proof fn lemma_sp_expr_pos(s: Seq<u8>, i: int, fuel: nat)
    requires
        0 <= i <= s.len(),
    ensures
        (match sp_expr(s, i, fuel) {
            Some(Ok((t, j))) => i <= j <= s.len(),
            _ => true,
        }),
    decreases fuel, 2int,
{
    if fuel > 0 {
        lemma_sp_term_pos(s, i, fuel);
        match sp_term(s, i, fuel) {
            Some(Ok((t, j))) => {
                lemma_tok_end(s, j);
                let k = tok_kind(s, j);
                if k == TokenType::Plus || k == TokenType::Minus {
                    lemma_sp_expr_pos(s, tok_end(s, j), (fuel - 1) as nat);
                }
            },
            _ => {},
        }
    }
}

/// With `parse_fuel` or more, `sp_factor` never runs out of fuel and gives
/// the same answer for any such amount.
proof fn lemma_sp_factor_fuel(s: Seq<u8>, i: int, f1: nat, f2: nat)
    requires
        0 <= i <= s.len(),
        f1 >= s.len() - i + 1,
        f2 >= s.len() - i + 1,
    ensures
        sp_factor(s, i, f1) == sp_factor(s, i, f2),
        sp_factor(s, i, f1) is Some,
    decreases f1 + f2, 0int,
{
    lemma_tok_end(s, i);
    if tok_kind(s, i) == TokenType::LParen {
        let i2 = tok_end(s, i);
        lemma_sp_expr_fuel(s, i2, (f1 - 1) as nat, (f2 - 1) as nat);
        match sp_expr(s, i2, (f1 - 1) as nat) {
            Some(Ok((t, j))) => {
                lemma_sp_expr_pos(s, i2, (f1 - 1) as nat);
                lemma_tok_end(s, j);
            },
            _ => {},
        }
    }
}

/// With `parse_fuel` or more, `sp_term` never runs out of fuel and gives the
/// same answer for any such amount.
proof fn lemma_sp_term_fuel(s: Seq<u8>, i: int, f1: nat, f2: nat)
    requires
        0 <= i <= s.len(),
        f1 >= s.len() - i + 1,
        f2 >= s.len() - i + 1,
    ensures
        sp_term(s, i, f1) == sp_term(s, i, f2),
        sp_term(s, i, f1) is Some,
    decreases f1 + f2, 1int,
{
    lemma_sp_factor_fuel(s, i, f1, f2);
    match sp_factor(s, i, f1) {
        Some(Ok((t, j))) => {
            lemma_sp_factor_pos(s, i, f1);
            lemma_tok_end(s, j);
            let k = tok_kind(s, j);
            if k == TokenType::Asterisk || k == TokenType::Slash {
                lemma_sp_term_fuel(s, tok_end(s, j), (f1 - 1) as nat, (f2 - 1) as nat);
            }
        },
        _ => {},
    }
}

/// With `parse_fuel` or more, `sp_expr` never runs out of fuel and gives the
/// same answer for any such amount.
pub proof fn lemma_sp_expr_fuel(s: Seq<u8>, i: int, f1: nat, f2: nat)
    requires
        0 <= i <= s.len(),
        f1 >= s.len() - i + 1,
        f2 >= s.len() - i + 1,
    ensures
        sp_expr(s, i, f1) == sp_expr(s, i, f2),
        sp_expr(s, i, f1) is Some,
    decreases f1 + f2, 2int,
{
    lemma_sp_term_fuel(s, i, f1, f2);
    match sp_term(s, i, f1) {
        Some(Ok((t, j))) => {
            lemma_sp_term_pos(s, i, f1);
            lemma_tok_end(s, j);
            let k = tok_kind(s, j);
            if k == TokenType::Plus || k == TokenType::Minus {
                lemma_sp_expr_fuel(s, tok_end(s, j), (f1 - 1) as nat, (f2 - 1) as nat);
            }
        },
        _ => {},
    }
}

/// The whole-line grammar always has a defined answer: the fuel that
/// `sp_start` passes suffices.
pub proof fn lemma_sp_start_defined(s: Seq<u8>, i: int)
    requires
        0 <= i <= s.len(),
    ensures
        sp_start(s, i) is Some,
{
    lemma_sp_expr_fuel(s, i, parse_fuel(s, i), parse_fuel(s, i));
}

/// The parser: a scanner it draws tokens from, plus one token of lookahead.
/// `tok_start` records where in the input the lookahead token began.
pub struct Parser {
    lexer: Lexer,
    curr_token: Token,
    tok_start: Ghost<int>,
}

impl Parser {
    /// The bytes of the input line being parsed.
    pub closed spec fn bytes(self) -> Seq<u8> {
        self.lexer.bytes()
    }

    /// The position the lookahead token was scanned from.
    pub closed spec fn at(self) -> int {
        self.tok_start@
    }

    /// The lookahead token is exactly the token the input holds at `at()`,
    /// and the scanner stands just past it.
    pub closed spec fn wf(self) -> bool {
        &&& self.lexer.wf()
        &&& 0 <= self.tok_start@ <= self.lexer.bytes().len()
        &&& self.curr_token.kind == tok_kind(self.lexer.bytes(), self.tok_start@)
        &&& self.curr_token.spelling@ == tok_spelling(self.lexer.bytes(), self.tok_start@)
        &&& self.lexer.pos() == tok_end(self.lexer.bytes(), self.tok_start@)
    }

    pub fn new(lexer: Lexer) -> (p: Parser)
        requires
            lexer.wf(),
        ensures
            p.wf(),
            p.bytes() == lexer.bytes(),
            p.at() == lexer.pos(),
    {
        let ghost start = lexer.pos();
        let mut l = lexer;
        let t = l.next_token();
        Parser { lexer: l, curr_token: t, tok_start: Ghost(start) }
    }

    /// Unconditionally take the next token as the new lookahead.
    fn accept_it(&mut self)
        requires
            old(self).wf(),
        ensures
            final(self).wf(),
            final(self).bytes() == old(self).bytes(),
            final(self).at() == tok_end(old(self).bytes(), old(self).at()),
    {
        proof {
            lemma_tok_end(self.bytes(), self.at());
        }
        let ghost start = self.lexer.pos();
        self.curr_token = self.lexer.next_token();
        self.tok_start = Ghost(start);
    }

    /// Take the next token if the lookahead has the required kind; otherwise
    /// report which kind was required and which was found.
    fn accept(&mut self, tt: TokenType) -> (r: Result<(), SyntaxError>)
        requires
            old(self).wf(),
        ensures
            final(self).wf(),
            final(self).bytes() == old(self).bytes(),
            (if tok_kind(old(self).bytes(), old(self).at()) == tt {
                r is Ok && final(self).at() == tok_end(old(self).bytes(), old(self).at())
            } else {
                r == Err::<(), SyntaxError>(
                    SyntaxError::UnexpectedToken {
                        expected: tt,
                        found: tok_kind(old(self).bytes(), old(self).at()),
                    },
                ) && *final(self) == *old(self)
            }),
    {
        if self.curr_token.kind == tt {
            self.accept_it();
            Ok(())
        } else {
            Err(SyntaxError::UnexpectedToken { expected: tt, found: self.curr_token.kind })
        }
    }

    /// `start ::= expression EndOfInput`: parse the whole remaining input as
    /// one expression. Returns exactly what the grammar functions describe:
    /// the tree for a well-formed input, and the syntax error naming the
    /// offending token otherwise.
    pub fn parse(&mut self) -> (r: Result<ArithmeticExpression, SyntaxError>)
        requires
            old(self).wf(),
        ensures
            final(self).wf(),
            final(self).bytes() == old(self).bytes(),
            Some(r) == sp_start(old(self).bytes(), old(self).at()),
    {
        let program_ast = match self.parse_expr() {
            Ok(t) => t,
            Err(e) => {
                return Err(e);
            },
        };
        match self.accept(TokenType::Eof) {
            Ok(_) => Ok(program_ast),
            Err(e) => Err(e),
        }
    }

    /// `expression ::= term ( '+' expression | '-' expression | epsilon )`
    fn parse_expr(&mut self) -> (r: Result<ArithmeticExpression, SyntaxError>)
        requires
            old(self).wf(),
        ensures
            final(self).wf(),
            final(self).bytes() == old(self).bytes(),
            sp_expr(old(self).bytes(), old(self).at(), parse_fuel(old(self).bytes(), old(self).at()))
                == Some(
                (match r {
                    Ok(t) => Ok::<(ArithmeticExpression, int), SyntaxError>((t, final(self).at())),
                    Err(e) => Err(e),
                }),
            ),
        decreases old(self).bytes().len() - old(self).at(), 2int,
    {
        let ghost s = self.bytes();
        let ghost i0 = self.at();
        let term_ast = match self.parse_term() {
            Ok(t) => t,
            Err(e) => {
                return Err(e);
            },
        };
        let ghost j = self.at();
        match self.curr_token.kind {
            TokenType::Plus => {
                self.accept_it();
                proof {
                    lemma_sp_term_pos(s, i0, parse_fuel(s, i0));
                    lemma_tok_end(s, j);
                    lemma_sp_expr_fuel(
                        s,
                        self.at(),
                        parse_fuel(s, self.at()),
                        (parse_fuel(s, i0) - 1) as nat,
                    );
                }
                let expr_ast = match self.parse_expr() {
                    Ok(u) => u,
                    Err(e) => {
                        return Err(e);
                    },
                };
                Ok(ArithmeticExpression::Add(Box::new(term_ast), Box::new(expr_ast)))
            },
            TokenType::Minus => {
                self.accept_it();
                proof {
                    lemma_sp_term_pos(s, i0, parse_fuel(s, i0));
                    lemma_tok_end(s, j);
                    lemma_sp_expr_fuel(
                        s,
                        self.at(),
                        parse_fuel(s, self.at()),
                        (parse_fuel(s, i0) - 1) as nat,
                    );
                }
                let expr_ast = match self.parse_expr() {
                    Ok(u) => u,
                    Err(e) => {
                        return Err(e);
                    },
                };
                Ok(ArithmeticExpression::Sub(Box::new(term_ast), Box::new(expr_ast)))
            },
            TokenType::Illegal => Err(SyntaxError::IllegalToken),
            _ => Ok(term_ast),
        }
    }

    /// `term ::= factor ( '*' term | '/' term | epsilon )`
    fn parse_term(&mut self) -> (r: Result<ArithmeticExpression, SyntaxError>)
        requires
            old(self).wf(),
        ensures
            final(self).wf(),
            final(self).bytes() == old(self).bytes(),
            sp_term(old(self).bytes(), old(self).at(), parse_fuel(old(self).bytes(), old(self).at()))
                == Some(
                (match r {
                    Ok(t) => Ok::<(ArithmeticExpression, int), SyntaxError>((t, final(self).at())),
                    Err(e) => Err(e),
                }),
            ),
        decreases old(self).bytes().len() - old(self).at(), 1int,
    {
        let ghost s = self.bytes();
        let ghost i0 = self.at();
        let factor_ast = match self.parse_factor() {
            Ok(t) => t,
            Err(e) => {
                return Err(e);
            },
        };
        let ghost j = self.at();
        match self.curr_token.kind {
            TokenType::Asterisk => {
                self.accept_it();
                proof {
                    lemma_sp_factor_pos(s, i0, parse_fuel(s, i0));
                    lemma_tok_end(s, j);
                    lemma_sp_term_fuel(
                        s,
                        self.at(),
                        parse_fuel(s, self.at()),
                        (parse_fuel(s, i0) - 1) as nat,
                    );
                }
                let term_ast = match self.parse_term() {
                    Ok(u) => u,
                    Err(e) => {
                        return Err(e);
                    },
                };
                Ok(ArithmeticExpression::Mul(Box::new(factor_ast), Box::new(term_ast)))
            },
            TokenType::Slash => {
                self.accept_it();
                proof {
                    lemma_sp_factor_pos(s, i0, parse_fuel(s, i0));
                    lemma_tok_end(s, j);
                    lemma_sp_term_fuel(
                        s,
                        self.at(),
                        parse_fuel(s, self.at()),
                        (parse_fuel(s, i0) - 1) as nat,
                    );
                }
                let term_ast = match self.parse_term() {
                    Ok(u) => u,
                    Err(e) => {
                        return Err(e);
                    },
                };
                Ok(ArithmeticExpression::Div(Box::new(factor_ast), Box::new(term_ast)))
            },
            TokenType::Illegal => Err(SyntaxError::IllegalToken),
            _ => Ok(factor_ast),
        }
    }

    /// `factor ::= '(' expression ')' | integer_literal`
    fn parse_factor(&mut self) -> (r: Result<ArithmeticExpression, SyntaxError>)
        requires
            old(self).wf(),
        ensures
            final(self).wf(),
            final(self).bytes() == old(self).bytes(),
            sp_factor(
                old(self).bytes(),
                old(self).at(),
                parse_fuel(old(self).bytes(), old(self).at()),
            ) == Some(
                (match r {
                    Ok(t) => Ok::<(ArithmeticExpression, int), SyntaxError>((t, final(self).at())),
                    Err(e) => Err(e),
                }),
            ),
        decreases old(self).bytes().len() - old(self).at(), 0int,
    {
        let ghost s = self.bytes();
        let ghost i0 = self.at();
        match self.curr_token.kind {
            TokenType::LParen => {
                self.accept_it();
                proof {
                    lemma_tok_end(s, i0);
                    lemma_sp_expr_fuel(
                        s,
                        self.at(),
                        parse_fuel(s, self.at()),
                        (parse_fuel(s, i0) - 1) as nat,
                    );
                }
                let expr_ast = match self.parse_expr() {
                    Ok(t) => t,
                    Err(e) => {
                        return Err(e);
                    },
                };
                match self.accept(TokenType::RParen) {
                    Ok(_) => Ok(expr_ast),
                    Err(e) => Err(e),
                }
            },
            TokenType::Int => {
                match self.parse_integer() {
                    Ok(v) => Ok(ArithmeticExpression::Value(v)),
                    Err(e) => Err(e),
                }
            },
            _ => Err(SyntaxError::InvalidFactor { found: self.curr_token.kind }),
        }
    }

    /// Turn the lookahead integer literal's digits into an `i32`, rejecting a
    /// literal whose value does not fit.
    fn parse_integer(&mut self) -> (r: Result<i32, SyntaxError>)
        requires
            old(self).wf(),
            tok_kind(old(self).bytes(), old(self).at()) == TokenType::Int,
        ensures
            final(self).wf(),
            final(self).bytes() == old(self).bytes(),
            (match r {
                Ok(v) => digits_value(int_run(old(self).bytes(), old(self).at())) <= i32::MAX
                    && v as int == digits_value(int_run(old(self).bytes(), old(self).at()))
                    && final(self).at() == tok_end(old(self).bytes(), old(self).at()),
                Err(e) => e == SyntaxError::MalformedInteger && digits_value(
                    int_run(old(self).bytes(), old(self).at()),
                ) > i32::MAX,
            }),
    {
        let ghost s = self.bytes();
        let ghost i0 = self.at();
        let ghost run = int_run(s, i0);
        proof {
            lemma_int_run_digits(s, i0);
        }
        let mut acc: u32 = 0;
        let spelling = self.curr_token.spelling.clone();
        let sp: &str = spelling.as_str();
        let n = sp.unicode_len();
        proof {
            assert(sp@ == chars_of(run));
            assert(n as int == run.len());
        }
        let mut idx: usize = 0;
        while idx < n
            invariant
                self.wf(),
                self.bytes() == s,
                self.at() == i0,
                0 <= idx <= n,
                n as int == run.len(),
                sp@ == chars_of(run),
                run == int_run(s, i0),
                forall|k: int| 0 <= k < run.len() ==> is_digit_byte(run[k]),
                acc as int == digits_value(run.subrange(0, idx as int)),
                acc <= i32::MAX,
            decreases n - idx,
        {
            let c = sp.get_char(idx);
            proof {
                assert(c == chars_of(run)[idx as int]);
                assert(chars_of(run)[idx as int] == run[idx as int] as char);
                assert(is_digit_byte(run[idx as int]));
                assert((run[idx as int] as char) as u32 == run[idx as int] as u32);
            }
            let d: u32 = c as u32;
            let next: u64 = acc as u64 * 10 + (d - 48) as u64;
            proof {
                assert(run.subrange(0, idx + 1).drop_last() =~= run.subrange(0, idx as int));
                assert(run.subrange(0, idx + 1).last() == run[idx as int]);
                assert(next as int == digits_value(run.subrange(0, idx + 1)));
            }
            if next > 0x7fff_ffff {
                proof {
                    lemma_digits_prefix_le(run, idx + 1);
                }
                return Err(SyntaxError::MalformedInteger);
            }
            acc = next as u32;
            idx = idx + 1;
        }
        proof {
            assert(run.subrange(0, idx as int) =~= run);
        }
        self.accept_it();
        Ok(acc as i32)
    }
}

/// The decimal rendering of `v` spells `v`.
pub proof fn lemma_dec_rep_value(v: nat)
    ensures
        digits_value(dec_rep(v)) == v,
    decreases v,
{
    if v < 10 {
        assert(dec_rep(v) =~= seq![(48 + v) as u8]);
        assert(dec_rep(v).drop_last() =~= Seq::<u8>::empty());
        assert(dec_rep(v).last() == (48 + v) as u8);
        assert(digits_value(Seq::<u8>::empty()) == 0);
        assert((48 + v) as u8 == 48 + v);
    } else {
        lemma_dec_rep_value(v / 10);
        assert(dec_rep(v).drop_last() =~= dec_rep(v / 10));
        assert(dec_rep(v).last() == (48 + v % 10) as u8);
        assert((48 + v % 10) as u8 == 48 + v % 10);
        vstd::arithmetic::div_mod::lemma_fundamental_div_mod(v as int, 10);
    }
}

/// Parsing a rendered tree at position `i` recognizes it as one factor and
/// consumes exactly its text. For a literal, the byte just past it, if there
/// is one, must not be a digit, so that the literal's digit run ends there.
proof fn lemma_render_factor(s: Seq<u8>, i: int, t: ArithmeticExpression, fuel: nat)
    requires
        wf_tree(t),
        0 <= i,
        i + render_bytes(t).len() <= s.len(),
        s.subrange(i, i + render_bytes(t).len()) == render_bytes(t),
        fuel >= s.len() - i + 1,
        (t is Value ==> i + render_bytes(t).len() == s.len() || !is_digit_byte(
            s[i + render_bytes(t).len()],
        )),
    ensures
        sp_factor(s, i, fuel) == Some(
            Ok::<(ArithmeticExpression, int), SyntaxError>((t, i + render_bytes(t).len())),
        ),
    decreases t,
{
    let r = render_bytes(t);
    let e = i + r.len();
    lemma_render_ascii(t);
    match t {
        ArithmeticExpression::Value(v) => {
            lemma_dec_rep_digits(v as nat);
            assert forall|k: int| i <= k < e implies is_digit_byte(s[k]) by {
                assert(s.subrange(i, e)[k - i] == s[k]);
                assert(48 <= r[k - i] && r[k - i] <= 57);
            }
            lemma_ws_end_is(s, i, i);
            lemma_num_end_is(s, i, e);
            assert(tok_kind(s, i) == TokenType::Int);
            assert(tok_end(s, i) == e);
            assert(int_run(s, i) =~= r);
            lemma_dec_rep_value(v as nat);
            assert(digits_value(int_run(s, i)) == v as int);
        },
        ArithmeticExpression::Add(bl, br) => {
            lemma_render_group(s, i, t, *bl, *br, 43u8, fuel);
        },
        ArithmeticExpression::Sub(bl, br) => {
            lemma_render_group(s, i, t, *bl, *br, 45u8, fuel);
        },
        ArithmeticExpression::Mul(bl, br) => {
            lemma_render_group(s, i, t, *bl, *br, 42u8, fuel);
        },
        ArithmeticExpression::Div(bl, br) => {
            lemma_render_group(s, i, t, *bl, *br, 47u8, fuel);
        },
    }
}

/// The parenthesized-group case of `lemma_render_factor`: `t` is the binary
/// node for operator `opb` with children `l` and `r`, rendered as
/// `( l opb r )`.
proof fn lemma_render_group(
    s: Seq<u8>,
    i: int,
    t: ArithmeticExpression,
    l: ArithmeticExpression,
    r: ArithmeticExpression,
    opb: u8,
    fuel: nat,
)
    requires
        wf_tree(l),
        wf_tree(r),
        (match t {
            ArithmeticExpression::Add(bl, br) => opb == 43 && *bl == l && *br == r,
            ArithmeticExpression::Sub(bl, br) => opb == 45 && *bl == l && *br == r,
            ArithmeticExpression::Mul(bl, br) => opb == 42 && *bl == l && *br == r,
            ArithmeticExpression::Div(bl, br) => opb == 47 && *bl == l && *br == r,
            ArithmeticExpression::Value(_) => false,
        }),
        0 <= i,
        i + render_bytes(t).len() <= s.len(),
        s.subrange(i, i + render_bytes(t).len()) == render_bytes(t),
        fuel >= s.len() - i + 1,
    ensures
        sp_factor(s, i, fuel) == Some(
            Ok::<(ArithmeticExpression, int), SyntaxError>((t, i + render_bytes(t).len())),
        ),
    decreases t, 0int,
{
    let rt = render_bytes(t);
    let e = i + rt.len();
    let rl = render_bytes(l);
    let rr = render_bytes(r);
    let ll = rl.len() as int;
    let lr = rr.len() as int;
    let el = i + 1 + ll;
    let er = el + 1 + lr;
    lemma_render_ascii(l);
    lemma_render_ascii(r);
    assert(rt =~= seq![40u8] + rl + seq![opb] + rr + seq![41u8]);
    assert(rt.len() == 3 + ll + lr);
    assert(e == er + 1);

    // Where each piece of the rendering sits in `s`.
    assert(s[i] == 40u8) by {
        assert(s.subrange(i, e)[0] == s[i]);
        assert(rt[0] == 40u8);
    }
    assert(s[el] == opb) by {
        assert(s.subrange(i, e)[1 + ll] == s[el]);
        assert(rt[1 + ll] == opb);
    }
    assert(s[er] == 41u8) by {
        assert(s.subrange(i, e)[2 + ll + lr] == s[er]);
        assert(rt[2 + ll + lr] == 41u8);
    }
    assert forall|k: int| 0 <= k < ll implies s.subrange(i + 1, el)[k] == rl[k] by {
        assert(s.subrange(i, e)[1 + k] == s[i + 1 + k]);
        assert(rt[1 + k] == rl[k]);
        assert(s.subrange(i + 1, el)[k] == s[i + 1 + k]);
    }
    assert(s.subrange(i + 1, el) =~= rl);
    assert forall|k: int| 0 <= k < lr implies s.subrange(el + 1, er)[k] == rr[k] by {
        assert(s.subrange(i, e)[2 + ll + k] == s[el + 1 + k]);
        assert(rt[2 + ll + k] == rr[k]);
        assert(s.subrange(el + 1, er)[k] == s[el + 1 + k]);
    }
    assert(s.subrange(el + 1, er) =~= rr);

    // The three structural tokens around the two children.
    lemma_ws_end_is(s, i, i);
    assert(tok_kind(s, i) == TokenType::LParen);
    assert(tok_end(s, i) == i + 1);
    lemma_ws_end_is(s, el, el);
    assert(tok_end(s, el) == el + 1);
    lemma_ws_end_is(s, er, er);
    assert(tok_kind(s, er) == TokenType::RParen);

    // Each child parses as one factor.
    lemma_render_factor(s, i + 1, l, (fuel - 1) as nat);
    lemma_render_factor(s, el + 1, r, (fuel - 2) as nat);
    assert(sp_factor(s, i + 1, (fuel - 1) as nat) == Some(
        Ok::<(ArithmeticExpression, int), SyntaxError>((l, el)),
    ));
    assert(sp_factor(s, el + 1, (fuel - 2) as nat) == Some(
        Ok::<(ArithmeticExpression, int), SyntaxError>((r, er)),
    ));
    assert(sp_term(s, el + 1, (fuel - 2) as nat) == Some(
        Ok::<(ArithmeticExpression, int), SyntaxError>((r, er)),
    ));

    if opb == 43 || opb == 45 {
        // '+' and '-' continue at the expression tier.
        assert(sp_term(s, i + 1, (fuel - 1) as nat) == Some(
            Ok::<(ArithmeticExpression, int), SyntaxError>((l, el)),
        ));
        assert(sp_expr(s, el + 1, (fuel - 2) as nat) == Some(
            Ok::<(ArithmeticExpression, int), SyntaxError>((r, er)),
        ));
        assert(sp_expr(s, i + 1, (fuel - 1) as nat) == Some(
            Ok::<(ArithmeticExpression, int), SyntaxError>((t, er)),
        ));
    } else {
        // '*' and '/' continue at the term tier.
        assert(sp_term(s, i + 1, (fuel - 1) as nat) == Some(
            Ok::<(ArithmeticExpression, int), SyntaxError>((t, er)),
        ));
        assert(sp_expr(s, i + 1, (fuel - 1) as nat) == Some(
            Ok::<(ArithmeticExpression, int), SyntaxError>((t, er)),
        ));
    }
    assert(sp_factor(s, i, fuel) == Some(
        Ok::<(ArithmeticExpression, int), SyntaxError>((t, e)),
    ));
}

/// Law: parsing the rendering of any tree the grammar can spell (one with
/// non-negative literals, since the grammar has no negation) gives back
/// exactly that tree.
pub proof fn lemma_render_round_trip(t: ArithmeticExpression)
    requires
        wf_tree(t),
    ensures
        sp_start(render_bytes(t), 0) == Some(Ok::<ArithmeticExpression, SyntaxError>(t)),
{
    let s = render_bytes(t);
    let n = s.len() as int;
    lemma_render_ascii(t);
    assert(s.subrange(0, n) =~= s);
    let fuel = parse_fuel(s, 0);
    lemma_render_factor(s, 0, t, fuel);
    assert(crate::lexer::ws_end(s, n) == n);
    assert(tok_kind(s, n) == TokenType::Eof);
    assert(sp_term(s, 0, fuel) == Some(
        Ok::<(ArithmeticExpression, int), SyntaxError>((t, n)),
    ));
    assert(sp_expr(s, 0, fuel) == Some(
        Ok::<(ArithmeticExpression, int), SyntaxError>((t, n)),
    ));
}

/// The digit run of an `Int` token is non-empty and all digits.
proof fn lemma_int_run_digits(s: Seq<u8>, i: int)
    requires
        0 <= i <= s.len(),
        tok_kind(s, i) == TokenType::Int,
    ensures
        forall|k: int| 0 <= k < int_run(s, i).len() ==> is_digit_byte(int_run(s, i)[k]),
        int_run(s, i).len() > 0,
        tok_end(s, i) == ws_end(s, i) + int_run(s, i).len(),
{
    crate::lexer::lemma_ws_end(s, i);
    let j = ws_end(s, i);
    lemma_num_end(s, j);
}

} // verus!
