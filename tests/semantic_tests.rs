use pybolt::lexer::Lexer;
use pybolt::parser::Parser;
use pybolt::semantic::SemanticAnalyzer;

#[test]
fn mod_test_semantic_analysis() {
    let input = "let x = 42;";
    let lexer = Lexer::new(input);
    let mut parser = Parser::new(lexer);
    let ast = parser.parse().unwrap();

    let mut analyzer = SemanticAnalyzer::new();
    assert!(analyzer.analyze(&ast).is_ok());
}

#[test]
fn semantic_tests_test_semantic_analysis() {
    let input = "let x = 42;";
    let lexer = Lexer::new(input);
    let mut parser = Parser::new(lexer);
    let ast = parser.parse().unwrap();

    let mut analyzer = SemanticAnalyzer::new();
    assert!(analyzer.analyze(&ast).is_ok());
}
