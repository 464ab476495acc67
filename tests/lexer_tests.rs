use pybolt::lexer::{LexError, Lexer, Token, TokenType};

fn assert_token(lexer: &mut Lexer, expected_type: TokenType, expected_lexeme: &str) {
    assert_eq!(
        lexer.next_token().unwrap(),
        Token { token_type: expected_type, lexeme: expected_lexeme.to_string() }
    );
}

#[test]
fn test_lex_identifier_or_keyword() {
    let mut lexer = Lexer::new("let x = 42;");
    assert_token(&mut lexer, TokenType::Keyword, "let");
    assert_token(&mut lexer, TokenType::Identifier, "x");
    assert_token(&mut lexer, TokenType::Operator, "=");
    assert_token(&mut lexer, TokenType::Literal, "42");
    assert_token(&mut lexer, TokenType::Punctuation, ";");
}

#[test]
fn test_skip_whitespace() {
    let mut lexer = Lexer::new("   let    x   = 42   ;   ");
    assert_token(&mut lexer, TokenType::Keyword, "let");
    assert_token(&mut lexer, TokenType::Identifier, "x");
    assert_token(&mut lexer, TokenType::Operator, "=");
    assert_token(&mut lexer, TokenType::Literal, "42");
    assert_token(&mut lexer, TokenType::Punctuation, ";");
}

#[test]
fn test_lexer() {
    let input = "let x = 42;";
    let mut lexer = Lexer::new(input);
    assert_eq!(lexer.next_token().unwrap().lexeme, "let");
}

#[test]
fn end_of_input_repeats() {
    let mut lexer = Lexer::new("x");
    assert_token(&mut lexer, TokenType::Identifier, "x");
    assert_token(&mut lexer, TokenType::Eof, "");
    assert_token(&mut lexer, TokenType::Eof, "");
}

#[test]
fn empty_input_is_end_of_input() {
    let mut lexer = Lexer::new("  \t\n ");
    assert_token(&mut lexer, TokenType::Eof, "");
}

#[test]
fn operators_are_single_characters() {
    let mut lexer = Lexer::new("a+b-c*d/e==");
    assert_token(&mut lexer, TokenType::Identifier, "a");
    assert_token(&mut lexer, TokenType::Operator, "+");
    assert_token(&mut lexer, TokenType::Identifier, "b");
    assert_token(&mut lexer, TokenType::Operator, "-");
    assert_token(&mut lexer, TokenType::Identifier, "c");
    assert_token(&mut lexer, TokenType::Operator, "*");
    assert_token(&mut lexer, TokenType::Identifier, "d");
    assert_token(&mut lexer, TokenType::Operator, "/");
    assert_token(&mut lexer, TokenType::Identifier, "e");
    assert_token(&mut lexer, TokenType::Operator, "=");
    assert_token(&mut lexer, TokenType::Operator, "=");
}

#[test]
fn keyword_only_for_exact_let() {
    let mut lexer = Lexer::new("let lets le print");
    assert_token(&mut lexer, TokenType::Keyword, "let");
    assert_token(&mut lexer, TokenType::Identifier, "lets");
    assert_token(&mut lexer, TokenType::Identifier, "le");
    assert_token(&mut lexer, TokenType::Identifier, "print");
}

#[test]
fn letters_and_digits_split() {
    let mut lexer = Lexer::new("abc123");
    assert_token(&mut lexer, TokenType::Identifier, "abc");
    assert_token(&mut lexer, TokenType::Literal, "123");
}

#[test]
fn unexpected_character_is_an_error() {
    let mut lexer = Lexer::new("x ( y");
    assert_token(&mut lexer, TokenType::Identifier, "x");
    assert_eq!(lexer.next_token(), Err(LexError::UnexpectedCharacter('(')));
}

#[test]
fn largest_literal_fits() {
    let mut lexer = Lexer::new("2147483647");
    assert_token(&mut lexer, TokenType::Literal, "2147483647");
}

#[test]
fn literal_wider_than_i32_is_malformed() {
    let mut lexer = Lexer::new("2147483648");
    assert_eq!(lexer.next_token(), Err(LexError::MalformedLiteral));
    let mut lexer = Lexer::new("99999999999999999999999");
    assert_eq!(lexer.next_token(), Err(LexError::MalformedLiteral));
}

#[test]
fn tokenize_reads_through_end_of_input() {
    let mut lexer = Lexer::new("let y = 1;");
    let tokens = lexer.tokenize().unwrap();
    let kinds: Vec<TokenType> = tokens.iter().map(|t| t.token_type).collect();
    assert_eq!(
        kinds,
        vec![
            TokenType::Keyword,
            TokenType::Identifier,
            TokenType::Operator,
            TokenType::Literal,
            TokenType::Punctuation,
            TokenType::Eof
        ]
    );
}

#[test]
fn test_lex_number() {
    let mut lexer = Lexer::new("42 3.14 -5");
    assert_token(&mut lexer, TokenType::Literal, "42");
    assert_token(&mut lexer, TokenType::Literal, "3");
    assert_eq!(lexer.next_token(), Err(LexError::UnexpectedCharacter('.')));
}

#[test]
fn test_lex_operator() {
    let mut lexer = Lexer::new("+ - * / = == != < > <= >=");
    for op in ["+", "-", "*", "/", "=", "=", "="] {
        assert_token(&mut lexer, TokenType::Operator, op);
    }
    assert_eq!(lexer.next_token(), Err(LexError::UnexpectedCharacter('!')));
}

#[test]
fn test_lex_punctuation() {
    let mut lexer = Lexer::new("( ) { } [ ] , ; .");
    assert_eq!(lexer.next_token(), Err(LexError::UnexpectedCharacter('(')));
    let mut lexer = Lexer::new(";");
    assert_token(&mut lexer, TokenType::Punctuation, ";");
}

#[test]
fn test_lex_string_literal() {
    let mut lexer = Lexer::new(r#""Hello, world!" 'c'"#);
    assert_eq!(lexer.next_token(), Err(LexError::UnexpectedCharacter('"')));
    let mut lexer = Lexer::new("'c'");
    assert_eq!(lexer.next_token(), Err(LexError::UnexpectedCharacter('\'')));
}

#[test]
fn test_lex_complex_expression() {
    let mut lexer = Lexer::new("if (x > 0 && y < 10) { result = x + y * 2; }");
    assert_token(&mut lexer, TokenType::Identifier, "if");
    assert_eq!(lexer.next_token(), Err(LexError::UnexpectedCharacter('(')));
    let mut lexer = Lexer::new("result = x + y * 2;");
    let expected_tokens = vec![
        (TokenType::Identifier, "result"),
        (TokenType::Operator, "="),
        (TokenType::Identifier, "x"),
        (TokenType::Operator, "+"),
        (TokenType::Identifier, "y"),
        (TokenType::Operator, "*"),
        (TokenType::Literal, "2"),
        (TokenType::Punctuation, ";"),
    ];
    for (expected_type, expected_lexeme) in expected_tokens {
        assert_token(&mut lexer, expected_type, expected_lexeme);
    }
}
