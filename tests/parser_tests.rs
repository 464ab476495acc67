use pybolt::lexer::{LexError, Lexer, TokenType};
use pybolt::parser::{ASTNode, ASTNodeType, ParseError, Parser};

fn parse(input: &str) -> Result<ASTNode, ParseError> {
    let lexer = Lexer::new(input);
    let mut parser = Parser::new(lexer);
    parser.parse()
}

#[test]
fn test_variable_declaration() {
    let input = "let x = 42;";
    let lexer = Lexer::new(input);
    let mut parser = Parser::new(lexer);
    let ast = parser.parse().expect("Parsing failed");

    if let ASTNode::Program(nodes) = ast {
        assert_eq!(nodes.len(), 1);
        if let ASTNode::VariableDeclaration { name, value } = &nodes[0] {
            assert_eq!(name, "x");
            if let ASTNode::Number(n) = **value {
                assert_eq!(n, 42);
            } else {
                panic!("Expected a number");
            }
        } else {
            panic!("Expected a variable declaration");
        }
    } else {
        panic!("Expected a program node");
    }
}

#[test]
fn test_arithmetic_expression() {
    let input = "let x = 1 + 2 * 3;";
    let lexer = Lexer::new(input);
    let mut parser = Parser::new(lexer);
    let ast = parser.parse().expect("Parsing failed");

    if let ASTNode::Program(nodes) = ast {
        assert_eq!(nodes.len(), 1);
        if let ASTNode::VariableDeclaration { name, value } = &nodes[0] {
            assert_eq!(name, "x");
            if let ASTNode::BinaryOperation { left, operator, right } = &**value {
                assert_eq!(operator, "+");
                if let ASTNode::Number(n) = **left {
                    assert_eq!(n, 1);
                } else {
                    panic!("Expected a number");
                }
                if let ASTNode::BinaryOperation { left, operator, right } = &**right {
                    assert_eq!(operator, "*");
                    if let ASTNode::Number(n) = **left {
                        assert_eq!(n, 2);
                    } else {
                        panic!("Expected a number");
                    }
                    if let ASTNode::Number(n) = **right {
                        assert_eq!(n, 3);
                    } else {
                        panic!("Expected a number");
                    }
                } else {
                    panic!("Expected a binary operation");
                }
            } else {
                panic!("Expected a binary operation");
            }
        } else {
            panic!("Expected a variable declaration");
        }
    } else {
        panic!("Expected a program node");
    }
}

#[test]
fn test_invalid_syntax() {
    let input = "let x = ;";
    let lexer = Lexer::new(input);
    let mut parser = Parser::new(lexer);
    let result = parser.parse();
    assert!(result.is_err());
}

#[test]
fn test_multiple_statements() {
    let input = "let x = 42; let y = x + 5;";
    let lexer = Lexer::new(input);
    let mut parser = Parser::new(lexer);
    let ast = parser.parse().expect("Parsing failed");

    if let ASTNode::Program(nodes) = ast {
        assert_eq!(nodes.len(), 2);

        if let ASTNode::VariableDeclaration { name, value } = &nodes[0] {
            assert_eq!(name, "x");
            if let ASTNode::Number(n) = **value {
                assert_eq!(n, 42);
            } else {
                panic!("Expected a number");
            }
        } else {
            panic!("Expected a variable declaration");
        }

        if let ASTNode::VariableDeclaration { name, value } = &nodes[1] {
            assert_eq!(name, "y");
            if let ASTNode::BinaryOperation { left, operator, right } = &**value {
                assert_eq!(operator, "+");
                if let ASTNode::Expression(ASTNodeType::Identifier(id)) = &**left {
                    assert_eq!(id, "x");
                } else {
                    panic!("Expected an identifier");
                }
                if let ASTNode::Number(n) = **right {
                    assert_eq!(n, 5);
                } else {
                    panic!("Expected a number");
                }
            } else {
                panic!("Expected a binary operation");
            }
        } else {
            panic!("Expected a variable declaration");
        }
    } else {
        panic!("Expected a program node");
    }
}

#[test]
fn test_parser() {
    let input = "let x = 42;";
    let lexer = Lexer::new(input);
    let mut parser = Parser::new(lexer);
    assert!(parser.parse().is_ok());
}

#[test]
fn equal_precedence_groups_to_the_left() {
    let ast = parse("let v = 1 - 2 - 3;").unwrap();
    assert_eq!(
        format!("{:?}", ast),
        "Program([VariableDeclaration { name: \"v\", value: BinaryOperation { left: \
         BinaryOperation { left: Number(1), operator: \"-\", right: Number(2) }, operator: \"-\", \
         right: Number(3) } }])"
    );
}

#[test]
fn higher_precedence_binds_first_on_either_side() {
    let ast = parse("let v = 1 * 2 + 3 / 4;").unwrap();
    assert_eq!(
        format!("{:?}", ast),
        "Program([VariableDeclaration { name: \"v\", value: BinaryOperation { left: \
         BinaryOperation { left: Number(1), operator: \"*\", right: Number(2) }, operator: \"+\", \
         right: BinaryOperation { left: Number(3), operator: \"/\", right: Number(4) } } }])"
    );
}

#[test]
fn print_statement_is_the_identifier_after_the_command_word() {
    let ast = parse("print x;").unwrap();
    assert_eq!(format!("{:?}", ast), "Program([Expression(Identifier(\"x\"))])");
}

#[test]
fn empty_source_is_an_empty_program() {
    let ast = parse("   ").unwrap();
    assert_eq!(format!("{:?}", ast), "Program([])");
}

#[test]
fn missing_semicolon_is_reported() {
    assert_eq!(
        parse("let x = 1").unwrap_err(),
        ParseError::ExpectedToken { kind: TokenType::Punctuation, lexeme: Some(';') }
    );
}

#[test]
fn missing_name_is_reported() {
    assert_eq!(
        parse("let = 1;").unwrap_err(),
        ParseError::ExpectedToken { kind: TokenType::Identifier, lexeme: None }
    );
}

#[test]
fn missing_equals_is_reported() {
    assert_eq!(
        parse("let x 1;").unwrap_err(),
        ParseError::ExpectedToken { kind: TokenType::Operator, lexeme: Some('=') }
    );
}

#[test]
fn operand_at_end_of_input_is_reported() {
    assert_eq!(parse("let x = 1 +").unwrap_err(), ParseError::UnexpectedEndOfInput);
}

#[test]
fn operand_that_is_punctuation_is_reported() {
    assert_eq!(
        parse("let x = ;").unwrap_err(),
        ParseError::UnexpectedToken(TokenType::Punctuation)
    );
}

#[test]
fn lexing_error_stops_the_parse() {
    assert_eq!(
        parse("let x = 1; let y = (2);").unwrap_err(),
        ParseError::Lex(LexError::UnexpectedCharacter('('))
    );
}

#[test]
fn equals_is_no_binary_operator() {
    assert_eq!(
        parse("x = 5;").unwrap_err(),
        ParseError::ExpectedToken { kind: TokenType::Punctuation, lexeme: Some(';') }
    );
}
