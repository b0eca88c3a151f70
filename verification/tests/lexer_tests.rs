use arith::lexer::Lexer;
use arith::token::TokenType;

#[test]
fn test_next_token_basic() {
    let input = r#"
            1 + 2
        "#;

    let tests = vec![
        (TokenType::Int, "1"),
        (TokenType::Plus, "+"),
        (TokenType::Int, "2"),
        (TokenType::Eof, ""),
    ];

    let mut lexer = Lexer::new(input);

    for (idx, tt) in tests.iter().enumerate() {
        let token = lexer.next_token();

        assert_eq!(
            tt.0, token.kind,
            "test [{}] - incorrect token type. expected {:?}, got {:?}",
            idx, tt.0, token.kind
        );

        assert_eq!(
            tt.1, token.spelling,
            "test [{}] - incorrect spelling. expected {:?}, got {:?}",
            idx, tt.1, token.spelling
        );
    }
}

#[test]
fn test_next_token_advanced() {
    let input = r#"
            ((1 + 32) * 312 / (2 - 3) * (14 + 5))
        "#;

    let tests = vec![
        (TokenType::LParen, "("),
        (TokenType::LParen, "("),
        (TokenType::Int, "1"),
        (TokenType::Plus, "+"),
        (TokenType::Int, "32"),
        (TokenType::RParen, ")"),
        (TokenType::Asterisk, "*"),
        (TokenType::Int, "312"),
        (TokenType::Slash, "/"),
        (TokenType::LParen, "("),
        (TokenType::Int, "2"),
        (TokenType::Minus, "-"),
        (TokenType::Int, "3"),
        (TokenType::RParen, ")"),
        (TokenType::Asterisk, "*"),
        (TokenType::LParen, "("),
        (TokenType::Int, "14"),
        (TokenType::Plus, "+"),
        (TokenType::Int, "5"),
        (TokenType::RParen, ")"),
        (TokenType::RParen, ")"),
        (TokenType::Eof, ""),
    ];

    let mut lexer = Lexer::new(input);

    for (idx, tt) in tests.iter().enumerate() {
        let token = lexer.next_token();

        assert_eq!(
            tt.0, token.kind,
            "test [{}] - incorrect token type. expected {:?}, got {:?}",
            idx, tt.0, token.kind
        );

        assert_eq!(
            tt.1, token.spelling,
            "test [{}] - incorrect spelling. expected {:?}, got {:?}",
            idx, tt.1, token.spelling
        );
    }
}

#[test]
fn test_next_token_illegal_and_past_end() {
    let mut lexer = Lexer::new("1 & 2");

    let t = lexer.next_token();
    assert_eq!(t.kind, TokenType::Int);
    assert_eq!(t.spelling, "1");

    let t = lexer.next_token();
    assert_eq!(t.kind, TokenType::Illegal);
    assert_eq!(t.spelling, "");

    let t = lexer.next_token();
    assert_eq!(t.kind, TokenType::Int);
    assert_eq!(t.spelling, "2");

    // After the end of the input, every call keeps returning Eof.
    assert_eq!(lexer.next_token().kind, TokenType::Eof);
    assert_eq!(lexer.next_token().kind, TokenType::Eof);
}
