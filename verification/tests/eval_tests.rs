use arith::ast::ArithmeticExpression;
use arith::error::ArithError;
use arith::evaluate;
use arith::parser::SyntaxError;
use arith::token::TokenType;
use arith::traits::Evaluatable;
use arith::ast::render;
use arith::lexer::Lexer;
use arith::parser::Parser;

#[test]
fn test_literal_evaluates_to_itself() {
    assert_eq!(evaluate("0"), Ok(0));
    assert_eq!(evaluate("7"), Ok(7));
    assert_eq!(evaluate("12345"), Ok(12345));
    assert_eq!(evaluate("007"), Ok(7));
    assert_eq!(evaluate("2147483647"), Ok(2147483647));
}

#[test]
fn test_operator_semantics() {
    assert_eq!(evaluate("1 + 2"), Ok(3));
    assert_eq!(evaluate("7 - 4"), Ok(3));
    assert_eq!(evaluate("6 * 7"), Ok(42));
    assert_eq!(evaluate("9 / 2"), Ok(4));
    assert_eq!(evaluate("12 * (2 + 3)"), Ok(60));
}

#[test]
fn test_right_associativity() {
    // 1 - (2 - 3), not (1 - 2) - 3: the grammar is right-associative.
    assert_eq!(evaluate("1 - 2 - 3"), Ok(2));
    // 8 / (4 / 2), not (8 / 4) / 2.
    assert_eq!(evaluate("8 / 4 / 2"), Ok(4));
}

#[test]
fn test_precedence() {
    // term binds tighter: 12 + (2 * 3).
    assert_eq!(evaluate("12 + 2 * 3"), Ok(18));
    assert_eq!(evaluate("1 * 2 + 3"), Ok(5));
}

#[test]
fn test_division_by_zero_sentinel() {
    assert_eq!(evaluate("5 / 0"), Ok(0));
    assert_eq!(evaluate("1 + 5 / 0"), Ok(1));
}

#[test]
fn test_unclosed_paren_fails() {
    assert_eq!(
        evaluate("(1 + 2"),
        Err(SyntaxError::UnexpectedToken { expected: TokenType::RParen, found: TokenType::Eof })
    );
}

#[test]
fn test_dangling_operator_fails() {
    assert_eq!(evaluate("1 + "), Err(SyntaxError::InvalidFactor { found: TokenType::Eof }));
}

#[test]
fn test_illegal_character_fails() {
    assert_eq!(evaluate("1 & 2"), Err(SyntaxError::IllegalToken));
}

#[test]
fn test_oversized_literal_fails() {
    assert_eq!(evaluate("99999999999999999999"), Err(SyntaxError::MalformedInteger));
}

#[test]
fn test_overflow_wraps_around() {
    assert_eq!(evaluate("2147483647 + 1"), Ok(i32::MIN));
    assert_eq!(evaluate("2147483647 * 2"), Ok(-2));
    assert_eq!(evaluate("0 - 1"), Ok(-1));
}

#[test]
fn test_whitespace_is_skipped() {
    assert_eq!(evaluate("   12   +  30 "), Ok(42));
    assert_eq!(evaluate("((3))"), Ok(3));
}

#[test]
fn test_tree_evaluation() {
    let tree = ArithmeticExpression::Div(
        Box::new(ArithmeticExpression::Value(5)),
        Box::new(ArithmeticExpression::Value(0)),
    );
    assert_eq!(tree.evaluate(), 0);

    let tree = ArithmeticExpression::Sub(
        Box::new(ArithmeticExpression::Value(1)),
        Box::new(ArithmeticExpression::Sub(
            Box::new(ArithmeticExpression::Value(2)),
            Box::new(ArithmeticExpression::Value(3)),
        )),
    );
    assert_eq!(tree.evaluate(), 2);
}

#[test]
fn test_render_round_trip() {
    let trees = vec![
        ArithmeticExpression::Value(0),
        ArithmeticExpression::Value(2147483647),
        ArithmeticExpression::Sub(
            Box::new(ArithmeticExpression::Value(1)),
            Box::new(ArithmeticExpression::Sub(
                Box::new(ArithmeticExpression::Value(2)),
                Box::new(ArithmeticExpression::Value(3)),
            )),
        ),
        ArithmeticExpression::Div(
            Box::new(ArithmeticExpression::Mul(
                Box::new(ArithmeticExpression::Value(12)),
                Box::new(ArithmeticExpression::Value(5)),
            )),
            Box::new(ArithmeticExpression::Value(0)),
        ),
    ];

    for tree in trees {
        let text = render(&tree);
        let mut parser = Parser::new(Lexer::new(text.as_str()));
        assert_eq!(parser.parse(), Ok(tree), "round trip failed for {:?}", text);
    }
}

#[test]
fn test_render_text() {
    let tree = ArithmeticExpression::Add(
        Box::new(ArithmeticExpression::Value(1)),
        Box::new(ArithmeticExpression::Mul(
            Box::new(ArithmeticExpression::Value(23)),
            Box::new(ArithmeticExpression::Value(4)),
        )),
    );
    assert_eq!(render(&tree), "(1+(23*4))");
}

#[test]
fn test_arith_error_message() {
    let e = ArithError::new(String::from("bad input"));
    assert_eq!(e.message(), "bad input");
}
