use pybolt::ir::{IRGenerator, LowerError, IR};
use pybolt::lexer::Lexer;
use pybolt::parser::{ASTNode, Parser};

fn lower(input: &str) -> Result<Vec<IR>, LowerError> {
    let lexer = Lexer::new(input);
    let mut parser = Parser::new(lexer);
    let ast = parser.parse().unwrap();
    let mut ir_generator = IRGenerator::new();
    ir_generator.generate(&ast)
}

#[test]
fn test_ir_generation() {
    let input = "let x = 42;";
    let lexer = Lexer::new(input);
    let mut parser = Parser::new(lexer);
    let ast = parser.parse().unwrap();

    let mut ir_generator = IRGenerator::new();
    let ir = ir_generator.generate(&ast).expect("IR generation failed");

    assert_eq!(ir.len(), 1);
    if let IR::VariableDeclaration { name, value } = &ir[0] {
        assert_eq!(name, "x");
        assert_eq!(*value, 42);
    } else {
        panic!("Expected variable declaration IR");
    }
}

#[test]
fn test_ir_generation_with_binary_operation() {
    let input = "let y = 1 + 2;";
    let lexer = Lexer::new(input);
    let mut parser = Parser::new(lexer);
    let ast = parser.parse().unwrap();

    let mut ir_generator = IRGenerator::new();
    let ir = ir_generator.generate(&ast).expect("IR generation failed");

    assert_eq!(ir.len(), 1);
    if let IR::BinaryOperation { operator, left, right, .. } = &ir[0] {
        assert_eq!(operator, "+");
        match (&**left, &**right) {
            (IR::Immediate { value: left_val, .. }, IR::Immediate { value: right_val, .. }) => {
                assert_eq!(*left_val, 1);
                assert_eq!(*right_val, 2);
            }
            _ => panic!("Expected immediate values for binary operation"),
        }
    } else {
        panic!("Expected binary operation IR");
    }
}

#[test]
fn declaration_of_operation_writes_its_name() {
    let ir = lower("let y = x * 3;").unwrap();
    assert_eq!(
        format!("{:?}", ir),
        "[BinaryOperation { operator: \"*\", left: Variable { name: \"x\" }, right: Immediate { \
         value: 3, dest: \"temp\" }, dest: \"y\" }]"
    );
}

#[test]
fn bare_identifier_lowers_to_print() {
    let ir = lower("print y; z;").unwrap();
    assert_eq!(format!("{:?}", ir), "[Print { var: \"y\" }, Print { var: \"z\" }]");
}

#[test]
fn bare_number_lowers_to_placeholder_constant() {
    let ir = lower("7;").unwrap();
    assert_eq!(format!("{:?}", ir), "[Immediate { value: 7, dest: \"temp\" }]");
}

#[test]
fn declaration_of_a_lone_variable_is_rejected() {
    assert_eq!(lower("let y = x;").unwrap_err(), LowerError::UnsupportedDeclaration);
}

#[test]
fn nested_program_is_rejected() {
    let ast = ASTNode::Program(vec![ASTNode::Program(vec![])]);
    let mut ir_generator = IRGenerator::new();
    assert_eq!(ir_generator.generate(&ast).unwrap_err(), LowerError::UnsupportedNode);
}

#[test]
fn get_ir_keeps_the_last_successful_lowering() {
    let lexer = Lexer::new("let a = 1; print a;");
    let mut parser = Parser::new(lexer);
    let ast = parser.parse().unwrap();
    let mut ir_generator = IRGenerator::new();
    assert_eq!(ir_generator.get_ir().len(), 0);
    ir_generator.generate(&ast).unwrap();
    assert_eq!(ir_generator.get_ir().len(), 2);
    let bad = ASTNode::Program(vec![ASTNode::Program(vec![])]);
    assert!(ir_generator.generate(&bad).is_err());
    assert_eq!(ir_generator.get_ir().len(), 2);
}
