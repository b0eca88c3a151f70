use arith::ast::ArithmeticExpression;
use arith::lexer::Lexer;
use arith::parser::{Parser, SyntaxError};
use arith::token::TokenType;

#[test]
fn test_parse_expression1() {
    let input = r#"12345"#;

    let expected_ast = ArithmeticExpression::Value(12345);

    let lexer = Lexer::new(input);
    let mut parser = Parser::new(lexer);
    let program_ast = parser.parse().unwrap();
    assert_eq!(
        expected_ast, program_ast,
        "incorrect ast. expected {:?}, got {:?}",
        expected_ast, program_ast
    );
}

#[test]
fn test_parse_expression2() {
    let input = r#"12345 + 23456"#;

    let expected_ast = ArithmeticExpression::Add(
        Box::new(ArithmeticExpression::Value(12345)),
        Box::new(ArithmeticExpression::Value(23456)),
    );

    let lexer = Lexer::new(input);
    let mut parser = Parser::new(lexer);
    let program_ast = parser.parse().unwrap();
    assert_eq!(
        expected_ast, program_ast,
        "incorrect ast. expected {:?}, got {:?}",
        expected_ast, program_ast
    );
}

#[test]
fn test_parse_expression3() {
    let input = r#" 12 * (2 + 3)"#;
    let expected_ast = ArithmeticExpression::Mul(
        Box::new(ArithmeticExpression::Value(12)),
        Box::new(ArithmeticExpression::Add(
            Box::new(ArithmeticExpression::Value(2)),
            Box::new(ArithmeticExpression::Value(3)),
        )),
    );

    let lexer = Lexer::new(input);
    let mut parser = Parser::new(lexer);
    let program_ast = parser.parse().unwrap();
    assert_eq!(
        expected_ast, program_ast,
        "incorrect ast. expected {:?}, got {:?}",
        expected_ast, program_ast
    );
}

#[test]
fn test_parse_expression4() {
    let input = r#"12 + 2 * 3"#;
    let expected_ast = ArithmeticExpression::Add(
        Box::new(ArithmeticExpression::Value(12)),
        Box::new(ArithmeticExpression::Mul(
            Box::new(ArithmeticExpression::Value(2)),
            Box::new(ArithmeticExpression::Value(3)),
        )),
    );

    let lexer = Lexer::new(input);
    let mut parser = Parser::new(lexer);
    let program_ast = parser.parse().unwrap();

    assert_eq!(
        expected_ast, program_ast,
        "incorrect ast. expected {:?}, got {:?}",
        expected_ast, program_ast
    );
}

#[test]
fn test_parse_expression5() {
    let input = r#"1 * 2 + 3"#;
    let expected_ast = ArithmeticExpression::Add(
        Box::new(ArithmeticExpression::Mul(
            Box::new(ArithmeticExpression::Value(1)),
            Box::new(ArithmeticExpression::Value(2)),
        )),
        Box::new(ArithmeticExpression::Value(3)),
    );

    let lexer = Lexer::new(input);
    let mut parser = Parser::new(lexer);
    let program_ast = parser.parse().unwrap();

    assert_eq!(
        expected_ast, program_ast,
        "incorrect ast. expected {:?}, got {:?}",
        expected_ast, program_ast
    );
}

#[test]
fn test_parse_expression6() {
    let input = r#"1 + 2 + 3"#;
    let expected_ast = ArithmeticExpression::Add(
        Box::new(ArithmeticExpression::Value(1)),
        Box::new(ArithmeticExpression::Add(
            Box::new(ArithmeticExpression::Value(2)),
            Box::new(ArithmeticExpression::Value(3)),
        )),
    );

    let lexer = Lexer::new(input);
    let mut parser = Parser::new(lexer);
    let program_ast = parser.parse().unwrap();

    assert_eq!(
        expected_ast, program_ast,
        "incorrect ast. expected {:?}, got {:?}",
        expected_ast, program_ast
    );
}

#[test]
fn test_parse_expression7() {
    let input = r#"11 + 2 - 3 * 14 / 5"#;
    let expected_ast = ArithmeticExpression::Add(
        Box::new(ArithmeticExpression::Value(11)),
        Box::new(ArithmeticExpression::Sub(
            Box::new(ArithmeticExpression::Value(2)),
            Box::new(ArithmeticExpression::Mul(
                Box::new(ArithmeticExpression::Value(3)),
                Box::new(ArithmeticExpression::Div(
                    Box::new(ArithmeticExpression::Value(14)),
                    Box::new(ArithmeticExpression::Value(5)),
                )),
            )),
        )),
    );

    let lexer = Lexer::new(input);
    let mut parser = Parser::new(lexer);
    let program_ast = parser.parse().unwrap();

    assert_eq!(
        expected_ast, program_ast,
        "incorrect ast. expected {:?}, got {:?}",
        expected_ast, program_ast
    );
}

#[test]
fn test_parse_expression8() {
    let input = r#"((11 + 2) - 3)"#;
    let expected_ast = ArithmeticExpression::Sub(
        Box::new(ArithmeticExpression::Add(
            Box::new(ArithmeticExpression::Value(11)),
            Box::new(ArithmeticExpression::Value(2)),
        )),
        Box::new(ArithmeticExpression::Value(3)),
    );

    let lexer = Lexer::new(input);
    let mut parser = Parser::new(lexer);
    let program_ast = parser.parse().unwrap();

    assert_eq!(
        expected_ast, program_ast,
        "incorrect ast. expected {:?}, got {:?}",
        expected_ast, program_ast
    );
}

#[test]
fn test_parse_unclosed_paren() {
    let lexer = Lexer::new("(1 + 2");
    let mut parser = Parser::new(lexer);
    assert_eq!(
        parser.parse(),
        Err(SyntaxError::UnexpectedToken { expected: TokenType::RParen, found: TokenType::Eof })
    );
}

#[test]
fn test_parse_dangling_operator() {
    let lexer = Lexer::new("1 + ");
    let mut parser = Parser::new(lexer);
    assert_eq!(
        parser.parse(),
        Err(SyntaxError::InvalidFactor { found: TokenType::Eof })
    );
}

#[test]
fn test_parse_illegal_character() {
    let lexer = Lexer::new("1 & 2");
    let mut parser = Parser::new(lexer);
    assert_eq!(parser.parse(), Err(SyntaxError::IllegalToken));
}

#[test]
fn test_parse_trailing_tokens() {
    let lexer = Lexer::new("1 2");
    let mut parser = Parser::new(lexer);
    assert_eq!(
        parser.parse(),
        Err(SyntaxError::UnexpectedToken { expected: TokenType::Eof, found: TokenType::Int })
    );
}

#[test]
fn test_parse_oversized_literal() {
    let lexer = Lexer::new("2147483648");
    let mut parser = Parser::new(lexer);
    assert_eq!(parser.parse(), Err(SyntaxError::MalformedInteger));
}

#[test]
fn test_parse_largest_literal() {
    let lexer = Lexer::new("2147483647");
    let mut parser = Parser::new(lexer);
    assert_eq!(parser.parse(), Ok(ArithmeticExpression::Value(2147483647)));
}

#[test]
fn test_parse_empty_input() {
    let lexer = Lexer::new("");
    let mut parser = Parser::new(lexer);
    assert_eq!(
        parser.parse(),
        Err(SyntaxError::InvalidFactor { found: TokenType::Eof })
    );
}
