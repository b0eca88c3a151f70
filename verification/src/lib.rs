//! An arithmetic expression interpreter: a scanner turns a line of text into
//! tokens, a recursive-descent parser builds an expression tree from them, and
//! a tree-walking evaluator reduces the tree to one `i32`.
//!
//! The grammar has two precedence tiers and is right-associative at each tier;
//! division by zero evaluates to `0` by design, and arithmetic wraps around on
//! overflow. All of this is stated in the contracts of the public functions.

pub mod ast;
pub mod error;
pub mod lexer;
pub mod parser;
pub mod token;
pub mod traits;

use vstd::prelude::*;
use vstd::string::StringSliceAdditionalSpecFns;
use crate::ast::{op_node, spec_eval, ArithmeticExpression};
use crate::lexer::{is_digit_byte, lemma_num_end, Lexer};
use crate::parser::{digits_value, int_run, is_term_op, sp_start, Parser, SyntaxError};
use crate::traits::Evaluatable;

verus! {

/// What evaluating an input line yields: the value of its expression tree,
/// or the syntax error the parser reported. (`None` never actually occurs:
/// see `lemma_sp_start_defined`.)
pub open spec fn spec_evaluate(s: Seq<u8>) -> Option<Result<i32, SyntaxError>> {
    match sp_start(s, 0) {
        None => None,
        Some(Ok(t)) => Some(Ok(spec_eval(t))),
        Some(Err(e)) => Some(Err(e)),
    }
}

/// The pipeline entry point: scan, parse and evaluate one input line.
/// Returns the value of the expression, or the syntax error describing why
/// the line was rejected — exactly as `spec_evaluate` defines on the line's
/// bytes.
pub fn evaluate(input: &str) -> (r: Result<i32, SyntaxError>)
    ensures
        Some(r) == spec_evaluate(input.spec_bytes()),
{
    let mut parser = Parser::new(Lexer::new(input));
    match parser.parse() {
        Ok(tree) => Ok(tree.evaluate()),
        Err(e) => Err(e),
    }
}

/// Law: the decimal text of any non-negative integer that fits an `i32`
/// evaluates to exactly that integer.
pub proof fn lemma_literal_evaluates_to_itself(s: Seq<u8>)
    requires
        s.len() > 0,
        forall|k: int| 0 <= k < s.len() ==> is_digit_byte(s[k]),
        digits_value(s) <= i32::MAX,
    ensures
        spec_evaluate(s) == Some(Ok::<i32, SyntaxError>(digits_value(s) as i32)),
{
    let n = s.len() as int;
    assert(crate::lexer::ws_end(s, 0) == 0);
    lemma_num_end(s, 0);
    assert(crate::lexer::num_end(s, 0) == n);
    assert(crate::lexer::tok_kind(s, 0) == crate::token::TokenType::Int);
    assert(crate::lexer::tok_end(s, 0) == n);
    assert(int_run(s, 0) =~= s);
    assert(crate::lexer::ws_end(s, n) == n);
    assert(crate::lexer::tok_kind(s, n) == crate::token::TokenType::Eof);
    let fuel = crate::parser::parse_fuel(s, 0);
    let v = digits_value(s) as i32;
    assert(crate::parser::sp_factor(s, 0, fuel) == Some(
        Ok::<(ArithmeticExpression, int), SyntaxError>((ArithmeticExpression::Value(v), n)),
    ));
    assert(crate::parser::sp_term(s, 0, fuel) == Some(
        Ok::<(ArithmeticExpression, int), SyntaxError>((ArithmeticExpression::Value(v), n)),
    ));
    assert(crate::parser::sp_expr(s, 0, fuel) == Some(
        Ok::<(ArithmeticExpression, int), SyntaxError>((ArithmeticExpression::Value(v), n)),
    ));
    assert(sp_start(s, 0) == Some(Ok::<ArithmeticExpression, SyntaxError>(
        ArithmeticExpression::Value(v),
    )));
}

/// Law: for any two integer literals joined by one of the four operators,
/// evaluating the line `a op b` gives exactly the defined semantics of the
/// operator on the two literal values: wrapping addition, subtraction and
/// multiplication, and division with the zero-divisor sentinel.
pub proof fn lemma_binary_operator_evaluates(a: Seq<u8>, op: u8, b: Seq<u8>)
    requires
        a.len() > 0,
        b.len() > 0,
        forall|k: int| 0 <= k < a.len() ==> is_digit_byte(a[k]),
        forall|k: int| 0 <= k < b.len() ==> is_digit_byte(b[k]),
        digits_value(a) <= i32::MAX,
        digits_value(b) <= i32::MAX,
        op == 43 || op == 45 || op == 42 || op == 47,
    ensures
        ({
            let va = digits_value(a) as i32;
            let vb = digits_value(b) as i32;
            let expected = if op == 43 {
                vstd::wrapping::i32_specs::wrapping_add(va, vb)
            } else if op == 45 {
                vstd::wrapping::i32_specs::wrapping_sub(va, vb)
            } else if op == 42 {
                vstd::wrapping::i32_specs::wrapping_mul(va, vb)
            } else {
                crate::ast::eval_div(va, vb)
            };
            spec_evaluate(a + seq![op] + b) == Some(Ok::<i32, SyntaxError>(expected))
        }),
{
    let s = a + seq![op] + b;
    let la = a.len() as int;
    let n = s.len() as int;
    let va = digits_value(a) as i32;
    let vb = digits_value(b) as i32;
    assert(n == la + 1 + b.len());
    assert(s[la] == op);
    assert(forall|k: int| 0 <= k < la ==> s[k] == a[k]);
    assert(forall|k: int| la + 1 <= k < n ==> s[k] == b[k - la - 1]);

    // The three tokens and the end of input, as the scanner sees them.
    crate::lexer::lemma_ws_end_is(s, 0, 0);
    crate::lexer::lemma_num_end_is(s, 0, la);
    assert(crate::lexer::tok_kind(s, 0) == crate::token::TokenType::Int);
    assert(crate::lexer::tok_end(s, 0) == la);
    assert(int_run(s, 0) =~= a);
    crate::lexer::lemma_ws_end_is(s, la, la);
    assert(crate::lexer::tok_end(s, la) == la + 1);
    crate::lexer::lemma_ws_end_is(s, la + 1, la + 1);
    crate::lexer::lemma_num_end_is(s, la + 1, n);
    assert(crate::lexer::tok_kind(s, la + 1) == crate::token::TokenType::Int);
    assert(crate::lexer::tok_end(s, la + 1) == n);
    assert(int_run(s, la + 1) =~= b);
    assert(crate::lexer::ws_end(s, n) == n);
    assert(crate::lexer::tok_kind(s, n) == crate::token::TokenType::Eof);

    // The grammar functions, unfolded along the only derivation.
    let fuel = crate::parser::parse_fuel(s, 0);
    let f2 = (fuel - 1) as nat;
    let lit_a = ArithmeticExpression::Value(va);
    let lit_b = ArithmeticExpression::Value(vb);
    assert(crate::parser::sp_factor(s, 0, fuel) == Some(
        Ok::<(ArithmeticExpression, int), SyntaxError>((lit_a, la)),
    ));
    assert(crate::parser::sp_factor(s, la + 1, f2) == Some(
        Ok::<(ArithmeticExpression, int), SyntaxError>((lit_b, n)),
    ));
    assert(crate::parser::sp_term(s, la + 1, f2) == Some(
        Ok::<(ArithmeticExpression, int), SyntaxError>((lit_b, n)),
    ));
    if op == 42 || op == 47 {
        let tree = if op == 42 {
            ArithmeticExpression::Mul(Box::new(lit_a), Box::new(lit_b))
        } else {
            ArithmeticExpression::Div(Box::new(lit_a), Box::new(lit_b))
        };
        assert(crate::lexer::tok_kind(s, la) == (if op == 42 {
            crate::token::TokenType::Asterisk
        } else {
            crate::token::TokenType::Slash
        }));
        assert(crate::parser::sp_term(s, 0, fuel) == Some(
            Ok::<(ArithmeticExpression, int), SyntaxError>((tree, n)),
        ));
        assert(crate::parser::sp_expr(s, 0, fuel) == Some(
            Ok::<(ArithmeticExpression, int), SyntaxError>((tree, n)),
        ));
        assert(sp_start(s, 0) == Some(Ok::<ArithmeticExpression, SyntaxError>(tree)));
        assert(spec_eval(lit_a) == va);
        assert(spec_eval(lit_b) == vb);
    } else {
        let tree = if op == 43 {
            ArithmeticExpression::Add(Box::new(lit_a), Box::new(lit_b))
        } else {
            ArithmeticExpression::Sub(Box::new(lit_a), Box::new(lit_b))
        };
        assert(crate::lexer::tok_kind(s, la) == (if op == 43 {
            crate::token::TokenType::Plus
        } else {
            crate::token::TokenType::Minus
        }));
        assert(crate::parser::sp_term(s, 0, fuel) == Some(
            Ok::<(ArithmeticExpression, int), SyntaxError>((lit_a, la)),
        ));
        assert(crate::parser::sp_expr(s, la + 1, f2) == Some(
            Ok::<(ArithmeticExpression, int), SyntaxError>((lit_b, n)),
        ));
        assert(crate::parser::sp_expr(s, 0, fuel) == Some(
            Ok::<(ArithmeticExpression, int), SyntaxError>((tree, n)),
        ));
        assert(sp_start(s, 0) == Some(Ok::<ArithmeticExpression, SyntaxError>(tree)));
        assert(spec_eval(lit_a) == va);
        assert(spec_eval(lit_b) == vb);
    }
}

/// Law: how two operators group. For any three integer literals
/// `a o1 b o2 c`, a term-tier operator (`*` or `/`) followed by an
/// expression-tier operator (`+` or `-`) groups to the left, because the
/// term tier binds tighter; every other pair groups to the right, because
/// each tier is right-associative.
#[verifier::rlimit(100)]
pub proof fn lemma_two_operator_grouping(a: Seq<u8>, o1: u8, b: Seq<u8>, o2: u8, c: Seq<u8>)
    requires
        a.len() > 0,
        b.len() > 0,
        c.len() > 0,
        forall|k: int| 0 <= k < a.len() ==> is_digit_byte(a[k]),
        forall|k: int| 0 <= k < b.len() ==> is_digit_byte(b[k]),
        forall|k: int| 0 <= k < c.len() ==> is_digit_byte(c[k]),
        digits_value(a) <= i32::MAX,
        digits_value(b) <= i32::MAX,
        digits_value(c) <= i32::MAX,
        o1 == 43 || o1 == 45 || o1 == 42 || o1 == 47,
        o2 == 43 || o2 == 45 || o2 == 42 || o2 == 47,
    ensures
        ({
            let va = ArithmeticExpression::Value(digits_value(a) as i32);
            let vb = ArithmeticExpression::Value(digits_value(b) as i32);
            let vc = ArithmeticExpression::Value(digits_value(c) as i32);
            let tree = if is_term_op(o1) && !is_term_op(o2) {
                op_node(o2, op_node(o1, va, vb), vc)
            } else {
                op_node(o1, va, op_node(o2, vb, vc))
            };
            sp_start(a + seq![o1] + b + seq![o2] + c, 0) == Some(
                Ok::<ArithmeticExpression, SyntaxError>(tree),
            )
        }),
{
    let s = a + seq![o1] + b + seq![o2] + c;
    let la = a.len() as int;
    let jb = la + 1 + b.len();
    let n = s.len() as int;
    let va = ArithmeticExpression::Value(digits_value(a) as i32);
    let vb = ArithmeticExpression::Value(digits_value(b) as i32);
    let vc = ArithmeticExpression::Value(digits_value(c) as i32);
    assert(n == jb + 1 + c.len());
    assert(s[la] == o1);
    assert(s[jb] == o2);
    assert(forall|k: int| 0 <= k < la ==> s[k] == a[k]);
    assert(forall|k: int| la + 1 <= k < jb ==> s[k] == b[k - la - 1]);
    assert(forall|k: int| jb + 1 <= k < n ==> s[k] == c[k - jb - 1]);

    // The five tokens and the end of input, as the scanner sees them.
    crate::lexer::lemma_ws_end_is(s, 0, 0);
    crate::lexer::lemma_num_end_is(s, 0, la);
    assert(crate::lexer::tok_kind(s, 0) == crate::token::TokenType::Int);
    assert(crate::lexer::tok_end(s, 0) == la);
    assert(int_run(s, 0) =~= a);
    crate::lexer::lemma_ws_end_is(s, la, la);
    assert(crate::lexer::tok_end(s, la) == la + 1);
    crate::lexer::lemma_ws_end_is(s, la + 1, la + 1);
    crate::lexer::lemma_num_end_is(s, la + 1, jb);
    assert(crate::lexer::tok_kind(s, la + 1) == crate::token::TokenType::Int);
    assert(crate::lexer::tok_end(s, la + 1) == jb);
    assert(int_run(s, la + 1) =~= b);
    crate::lexer::lemma_ws_end_is(s, jb, jb);
    assert(crate::lexer::tok_end(s, jb) == jb + 1);
    crate::lexer::lemma_ws_end_is(s, jb + 1, jb + 1);
    crate::lexer::lemma_num_end_is(s, jb + 1, n);
    assert(crate::lexer::tok_kind(s, jb + 1) == crate::token::TokenType::Int);
    assert(crate::lexer::tok_end(s, jb + 1) == n);
    assert(int_run(s, jb + 1) =~= c);
    assert(crate::lexer::ws_end(s, n) == n);
    assert(crate::lexer::tok_kind(s, n) == crate::token::TokenType::Eof);

    // The grammar functions, unfolded along the only derivation.
    let fuel = crate::parser::parse_fuel(s, 0);
    let f1 = (fuel - 1) as nat;
    let f2 = (fuel - 2) as nat;
    assert(crate::parser::sp_factor(s, 0, fuel) == Some(
        Ok::<(ArithmeticExpression, int), SyntaxError>((va, la)),
    ));
    if is_term_op(o1) {
        assert(crate::lexer::tok_kind(s, la) == (if o1 == 42 {
            crate::token::TokenType::Asterisk
        } else {
            crate::token::TokenType::Slash
        }));
        assert(crate::parser::sp_factor(s, la + 1, f1) == Some(
            Ok::<(ArithmeticExpression, int), SyntaxError>((vb, jb)),
        ));
        if is_term_op(o2) {
            // a o1 (b o2 c): the term tier is right-associative.
            assert(crate::parser::sp_factor(s, jb + 1, f2) == Some(
                Ok::<(ArithmeticExpression, int), SyntaxError>((vc, n)),
            ));
            assert(crate::parser::sp_term(s, jb + 1, f2) == Some(
                Ok::<(ArithmeticExpression, int), SyntaxError>((vc, n)),
            ));
            assert(crate::parser::sp_term(s, la + 1, f1) == Some(
                Ok::<(ArithmeticExpression, int), SyntaxError>((op_node(o2, vb, vc), n)),
            ));
            assert(crate::parser::sp_term(s, 0, fuel) == Some(
                Ok::<(ArithmeticExpression, int), SyntaxError>((
                    op_node(o1, va, op_node(o2, vb, vc)),
                    n,
                )),
            ));
            assert(crate::parser::sp_expr(s, 0, fuel) == Some(
                Ok::<(ArithmeticExpression, int), SyntaxError>((
                    op_node(o1, va, op_node(o2, vb, vc)),
                    n,
                )),
            ));
        } else {
            // (a o1 b) o2 c: the term ends at o2, and the expression goes on.
            assert(crate::parser::sp_term(s, la + 1, f1) == Some(
                Ok::<(ArithmeticExpression, int), SyntaxError>((vb, jb)),
            ));
            assert(crate::parser::sp_term(s, 0, fuel) == Some(
                Ok::<(ArithmeticExpression, int), SyntaxError>((op_node(o1, va, vb), jb)),
            ));
            assert(crate::parser::sp_factor(s, jb + 1, f1) == Some(
                Ok::<(ArithmeticExpression, int), SyntaxError>((vc, n)),
            ));
            assert(crate::parser::sp_term(s, jb + 1, f1) == Some(
                Ok::<(ArithmeticExpression, int), SyntaxError>((vc, n)),
            ));
            assert(crate::parser::sp_expr(s, jb + 1, f1) == Some(
                Ok::<(ArithmeticExpression, int), SyntaxError>((vc, n)),
            ));
            assert(crate::parser::sp_expr(s, 0, fuel) == Some(
                Ok::<(ArithmeticExpression, int), SyntaxError>((
                    op_node(o2, op_node(o1, va, vb), vc),
                    n,
                )),
            ));
        }
    } else {
        assert(crate::lexer::tok_kind(s, la) == (if o1 == 43 {
            crate::token::TokenType::Plus
        } else {
            crate::token::TokenType::Minus
        }));
        assert(crate::parser::sp_term(s, 0, fuel) == Some(
            Ok::<(ArithmeticExpression, int), SyntaxError>((va, la)),
        ));
        assert(crate::parser::sp_factor(s, la + 1, f1) == Some(
            Ok::<(ArithmeticExpression, int), SyntaxError>((vb, jb)),
        ));
        if is_term_op(o2) {
            // a o1 (b o2 c): the term tier binds tighter.
            assert(crate::parser::sp_factor(s, jb + 1, f2) == Some(
                Ok::<(ArithmeticExpression, int), SyntaxError>((vc, n)),
            ));
            assert(crate::parser::sp_term(s, jb + 1, f2) == Some(
                Ok::<(ArithmeticExpression, int), SyntaxError>((vc, n)),
            ));
            assert(crate::parser::sp_term(s, la + 1, f1) == Some(
                Ok::<(ArithmeticExpression, int), SyntaxError>((op_node(o2, vb, vc), n)),
            ));
            assert(crate::parser::sp_expr(s, la + 1, f1) == Some(
                Ok::<(ArithmeticExpression, int), SyntaxError>((op_node(o2, vb, vc), n)),
            ));
        } else {
            // a o1 (b o2 c): the expression tier is right-associative.
            assert(crate::parser::sp_term(s, la + 1, f1) == Some(
                Ok::<(ArithmeticExpression, int), SyntaxError>((vb, jb)),
            ));
            assert(crate::parser::sp_factor(s, jb + 1, f2) == Some(
                Ok::<(ArithmeticExpression, int), SyntaxError>((vc, n)),
            ));
            assert(crate::parser::sp_term(s, jb + 1, f2) == Some(
                Ok::<(ArithmeticExpression, int), SyntaxError>((vc, n)),
            ));
            assert(crate::parser::sp_expr(s, jb + 1, f2) == Some(
                Ok::<(ArithmeticExpression, int), SyntaxError>((vc, n)),
            ));
            assert(crate::parser::sp_expr(s, la + 1, f1) == Some(
                Ok::<(ArithmeticExpression, int), SyntaxError>((op_node(o2, vb, vc), n)),
            ));
        }
        assert(crate::parser::sp_expr(s, 0, fuel) == Some(
            Ok::<(ArithmeticExpression, int), SyntaxError>((
                op_node(o1, va, op_node(o2, vb, vc)),
                n,
            )),
        ));
    }
}

} // verus!
