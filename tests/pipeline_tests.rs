use pybolt::codegen::{to_runtime, CodeGenerator};
use pybolt::ir::IRGenerator;
use pybolt::lexer::Lexer;
use pybolt::optimizer::{ConstantFolding, Optimization, OptimizeError};
use pybolt::parser::Parser;
use pybolt::pipeline::{compile, CompileError};
use pybolt::runtime::{Runtime, RuntimeError};

fn run(input: &str, optimize: bool) -> Result<Runtime, String> {
    let program = compile(input, optimize).map_err(|e| format!("{:?}", e))?;
    let mut runtime = Runtime::new(program);
    runtime.run().map_err(|e| format!("{:?}", e))?;
    Ok(runtime)
}

#[test]
fn declaration_round_trip() {
    let runtime = run("let x = 42;", false).unwrap();
    assert_eq!(runtime.get_var_value("x"), Some(&42));
    let runtime = run("let count = 2147483647;", false).unwrap();
    assert_eq!(runtime.get_var_value("count"), Some(&2147483647));
    let runtime = run("let zero = 0;", false).unwrap();
    assert_eq!(runtime.get_var_value("zero"), Some(&0));
}

#[test]
fn arithmetic_through_the_pipeline() {
    let cases = [
        ("let y = 12 + 30;", 42),
        ("let y = 7 - 10;", -3),
        ("let y = 9 * 6;", 54),
        ("let y = 7 / 2;", 3),
        ("let y = 2 / 7;", 0),
    ];
    for (source, expected) in cases {
        let runtime = run(source, false).unwrap();
        assert_eq!(runtime.get_var_value("t2"), Some(&expected), "{}", source);
        let ir = {
            let lexer = Lexer::new(source);
            let mut parser = Parser::new(lexer);
            let ast = parser.parse().unwrap();
            IRGenerator::new().generate(&ast).unwrap()
        };
        let folded = ConstantFolding.apply(ir).unwrap();
        let code = CodeGenerator::new().generate(&folded).unwrap();
        let mut runtime = Runtime::new(to_runtime(&code));
        runtime.run().unwrap();
        assert_eq!(runtime.get_var_value("y"), Some(&expected), "{}", source);
    }
}

#[test]
fn optimized_and_printed_arithmetic() {
    let runtime = run("let y = 12 - 30; print y;", true).unwrap();
    assert_eq!(runtime.get_var_value("y"), Some(&-18));
    assert_eq!(runtime.output(), &vec!["y = -18".to_string()]);
}

#[test]
fn unprinted_declarations_are_optimized_away() {
    let runtime = run("let x = 42;", true).unwrap();
    assert_eq!(runtime.get_var_value("x"), None);
}

#[test]
fn divide_by_zero_fails_when_optimized() {
    assert_eq!(
        compile("let y = 5 / 0;", true).unwrap_err(),
        CompileError::Optimize(OptimizeError::DivideByZero)
    );
}

#[test]
fn divide_by_zero_fails_at_runtime_without_folding() {
    let program = compile("let y = 5 / 0;", false).unwrap();
    let mut runtime = Runtime::new(program);
    assert_eq!(runtime.run(), Err(RuntimeError::DivideByZero));
    assert_eq!(runtime.get_var_value("y"), None);
}

#[test]
fn end_to_end_precedence() {
    let lexer = Lexer::new("let x = 1 + 2 * 3;");
    let mut parser = Parser::new(lexer);
    let ast = parser.parse().unwrap();
    assert_eq!(
        format!("{:?}", ast),
        "Program([VariableDeclaration { name: \"x\", value: BinaryOperation { left: Number(1), \
         operator: \"+\", right: BinaryOperation { left: Number(2), operator: \"*\", right: \
         Number(3) } } }])"
    );
    let ir = IRGenerator::new().generate(&ast).unwrap();
    let folded = ConstantFolding.apply(ir).unwrap();
    let code = CodeGenerator::new().generate(&folded).unwrap();
    let mut runtime = Runtime::new(to_runtime(&code));
    runtime.run().unwrap();
    assert_eq!(runtime.get_var_value("x"), Some(&7));
    let runtime = run("let x = 1 + 2 * 3;", false).unwrap();
    assert_eq!(runtime.get_var_value("t4"), Some(&7));
    assert_eq!(runtime.get_var_value("x"), None);
}

#[test]
fn unfolded_operation_leaves_its_name_unbound() {
    let program = compile("let x = 42; let y = x + 5; let z = 100; print y;", true).unwrap();
    let mut runtime = Runtime::new(program);
    assert_eq!(runtime.run(), Err(RuntimeError::UndefinedVariable("y".to_string())));
    assert_eq!(runtime.get_var_value("t1"), Some(&47));
    assert_eq!(runtime.get_var_value("z"), None);
}

#[test]
fn undefined_variable_in_a_program() {
    let program = compile("print q;", true).unwrap();
    let mut runtime = Runtime::new(program);
    assert_eq!(runtime.run(), Err(RuntimeError::UndefinedVariable("q".to_string())));
}

#[test]
fn each_stage_reports_its_own_error() {
    assert!(matches!(compile("let x = $;", false), Err(CompileError::Parse(_))));
    assert!(matches!(compile("let y = x;", false), Err(CompileError::Lower(_))));
    assert!(matches!(
        compile("let y = 2147483647 * 2;", true),
        Err(CompileError::Optimize(OptimizeError::Overflow))
    ));
    let program = compile("let y = 2147483647 * 2;", false).unwrap();
    assert_eq!(Runtime::new(program).run(), Err(RuntimeError::Overflow));
}
