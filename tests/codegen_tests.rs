use pybolt::codegen::{to_runtime, CodeGenerator, CodegenError, MachineInstruction};
use pybolt::ir::{IRGenerator, IR};
use pybolt::lexer::Lexer;
use pybolt::parser::Parser;

fn lower(input: &str) -> Vec<IR> {
    let lexer = Lexer::new(input);
    let mut parser = Parser::new(lexer);
    let ast = parser.parse().unwrap();
    let mut ir_generator = IRGenerator::new();
    ir_generator.generate(&ast).unwrap()
}

#[test]
fn test_codegen_variable_declaration() {
    let input = "let x = 42;";
    let lexer = Lexer::new(input);
    let mut parser = Parser::new(lexer);
    let ast = parser.parse().unwrap();

    let mut ir_generator = IRGenerator::new();
    ir_generator.generate(&ast).unwrap();

    let mut code_generator = CodeGenerator::new();
    let instructions = code_generator.generate(ir_generator.get_ir()).expect("Code generation failed");

    assert_eq!(instructions.len(), 1);
    if let MachineInstruction::LoadImmediate { dest, value } = &instructions[0] {
        assert_eq!(dest, "x");
        assert_eq!(*value, 42);
    } else {
        panic!("Expected LoadImmediate instruction");
    }
}

#[test]
fn test_codegen_print_statement() {
    let input = "print x;";
    let lexer = Lexer::new(input);
    let mut parser = Parser::new(lexer);
    let ast = parser.parse().unwrap();

    let mut ir_generator = IRGenerator::new();
    ir_generator.generate(&ast).unwrap();

    let mut code_generator = CodeGenerator::new();
    let instructions = code_generator.generate(ir_generator.get_ir()).expect("Code generation failed");

    assert_eq!(instructions.len(), 1);
    if let MachineInstruction::Print { var } = &instructions[0] {
        assert_eq!(var, "x");
    } else {
        panic!("Expected Print instruction");
    }
}

#[test]
fn test_codegen() {
    let input = "let x = 42;";
    let lexer = Lexer::new(input);
    let mut parser = Parser::new(lexer);
    let ast = parser.parse().unwrap();

    let mut ir_generator = IRGenerator::new();
    ir_generator.generate(&ast).unwrap();

    let mut code_generator = CodeGenerator::new();
    assert!(code_generator.generate(ir_generator.get_ir()).is_ok());
}

#[test]
fn operations_get_temporaries_in_post_order() {
    let mut code_generator = CodeGenerator::new();
    let code = code_generator.generate(&lower("let z = 1 + 2 * 3;")).unwrap();
    assert_eq!(
        format!("{:?}", code),
        "[LoadImmediate { dest: \"t0\", value: 1 }, LoadImmediate { dest: \"t1\", value: 2 }, \
         LoadImmediate { dest: \"t2\", value: 3 }, Mul { dest: \"t3\", src1: \"t1\", src2: \"t2\" }, \
         Add { dest: \"t4\", src1: \"t0\", src2: \"t3\" }]"
    );
}

#[test]
fn variables_are_read_in_place() {
    let mut code_generator = CodeGenerator::new();
    let code = code_generator.generate(&lower("let y = x - 5;")).unwrap();
    assert_eq!(
        format!("{:?}", code),
        "[LoadImmediate { dest: \"t0\", value: 5 }, Sub { dest: \"t1\", src1: \"x\", src2: \"t0\" }]"
    );
}

#[test]
fn counter_carries_over_within_one_generator() {
    let mut code_generator = CodeGenerator::new();
    code_generator.generate(&lower("let a = 1 + 2;")).unwrap();
    let code = code_generator.generate(&lower("let b = 3 / 4;")).unwrap();
    assert_eq!(
        format!("{:?}", code),
        "[LoadImmediate { dest: \"t3\", value: 3 }, LoadImmediate { dest: \"t4\", value: 4 }, \
         Div { dest: \"t5\", src1: \"t3\", src2: \"t4\" }]"
    );
    let mut fresh = CodeGenerator::new();
    let code = fresh.generate(&lower("let b = 3 / 4;")).unwrap();
    assert_eq!(format!("{:?}", code[0]), "LoadImmediate { dest: \"t0\", value: 3 }");
}

#[test]
fn temporaries_past_nine_have_two_digits() {
    let mut code_generator = CodeGenerator::new();
    let code = code_generator
        .generate(&lower("let a = 1 + 2 + 3 + 4 + 5 + 6 + 7;"))
        .unwrap();
    assert_eq!(format!("{:?}", code[code.len() - 2]), "LoadImmediate { dest: \"t11\", value: 7 }");
}

#[test]
fn unknown_operator_is_rejected() {
    let ir = vec![IR::BinaryOperation {
        operator: "%".to_string(),
        left: Box::new(IR::Variable { name: "a".to_string() }),
        right: Box::new(IR::Immediate { value: 2, dest: "temp".to_string() }),
        dest: "x".to_string(),
    }];
    let mut code_generator = CodeGenerator::new();
    assert_eq!(code_generator.generate(&ir).unwrap_err(), CodegenError::UnknownOperator);
}

#[test]
fn print_as_operand_is_rejected() {
    let ir = vec![IR::BinaryOperation {
        operator: "+".to_string(),
        left: Box::new(IR::Print { var: "a".to_string() }),
        right: Box::new(IR::Immediate { value: 2, dest: "temp".to_string() }),
        dest: "x".to_string(),
    }];
    let mut code_generator = CodeGenerator::new();
    assert_eq!(code_generator.generate(&ir).unwrap_err(), CodegenError::InvalidOperand);
}

#[test]
fn conversion_keeps_every_instruction() {
    let mut code_generator = CodeGenerator::new();
    let code = code_generator.generate(&lower("let y = 4 * 2; print y;")).unwrap();
    let program = to_runtime(&code);
    assert_eq!(
        format!("{:?}", program),
        "[LoadImmediate { var: \"t0\", value: 4 }, LoadImmediate { var: \"t1\", value: 2 }, \
         Mul { dest: \"t2\", src1: \"t0\", src2: \"t1\" }, Print { var: \"y\" }]"
    );
}

#[test]
fn test_codegen_binary_operation() {
    let input = "let y = 1 + 2;";
    let lexer = Lexer::new(input);
    let mut parser = Parser::new(lexer);
    let ast = parser.parse().unwrap();

    let mut ir_generator = IRGenerator::new();
    ir_generator.generate(&ast).unwrap();

    let mut code_generator = CodeGenerator::new();
    let instructions = code_generator.generate(ir_generator.get_ir()).expect("Code generation failed");

    assert_eq!(instructions.len(), 3);
    if let MachineInstruction::LoadImmediate { dest, value } = &instructions[0] {
        assert_eq!(dest, "t0");
        assert_eq!(*value, 1);
    } else {
        panic!("Expected LoadImmediate instruction");
    }
    if let MachineInstruction::LoadImmediate { dest, value } = &instructions[1] {
        assert_eq!(dest, "t1");
        assert_eq!(*value, 2);
    } else {
        panic!("Expected LoadImmediate instruction");
    }
    if let MachineInstruction::Add { dest, src1, src2 } = &instructions[2] {
        assert_eq!(dest, "t2");
        assert_eq!(src1, "t0");
        assert_eq!(src2, "t1");
    } else {
        panic!("Expected Add instruction");
    }
}

/// `(1 + 2) * 3`: the language has no parentheses, so the IR tree is built directly.
#[test]
fn test_codegen_complex_expression() {
    let imm = |value: i32| Box::new(IR::Immediate { value, dest: "temp".to_string() });
    let ir = vec![IR::BinaryOperation {
        operator: "*".to_string(),
        left: Box::new(IR::BinaryOperation {
            operator: "+".to_string(),
            left: imm(1),
            right: imm(2),
            dest: "temp".to_string(),
        }),
        right: imm(3),
        dest: "z".to_string(),
    }];

    let mut code_generator = CodeGenerator::new();
    let instructions = code_generator.generate(&ir).expect("Code generation failed");

    assert_eq!(instructions.len(), 5);
    if let MachineInstruction::LoadImmediate { dest, value } = &instructions[0] {
        assert_eq!(dest, "t0");
        assert_eq!(*value, 1);
    } else {
        panic!("Expected LoadImmediate instruction");
    }
    if let MachineInstruction::LoadImmediate { dest, value } = &instructions[1] {
        assert_eq!(dest, "t1");
        assert_eq!(*value, 2);
    } else {
        panic!("Expected LoadImmediate instruction");
    }
    if let MachineInstruction::Add { dest, src1, src2 } = &instructions[2] {
        assert_eq!(dest, "t2");
        assert_eq!(src1, "t0");
        assert_eq!(src2, "t1");
    } else {
        panic!("Expected Add instruction");
    }
    if let MachineInstruction::LoadImmediate { dest, value } = &instructions[3] {
        assert_eq!(dest, "t3");
        assert_eq!(*value, 3);
    } else {
        panic!("Expected LoadImmediate instruction");
    }
    if let MachineInstruction::Mul { dest, src1, src2 } = &instructions[4] {
        assert_eq!(dest, "t4");
        assert_eq!(src1, "t2");
        assert_eq!(src2, "t3");
    } else {
        panic!("Expected Mul instruction");
    }
}

#[test]
fn parenthesised_source_is_refused_by_the_lexer() {
    let lexer = Lexer::new("let z = (1 + 2) * 3;");
    let mut parser = Parser::new(lexer);
    assert!(parser.parse().is_err());
}
