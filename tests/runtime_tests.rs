use pybolt::runtime::{Instruction, Runtime, RuntimeError};

fn load(var: &str, value: i32) -> Instruction {
    Instruction::LoadImmediate { var: var.to_string(), value }
}

fn print(var: &str) -> Instruction {
    Instruction::Print { var: var.to_string() }
}

#[test]
fn test_runtime_execution() {
    let instructions = vec![
        Instruction::LoadImmediate { var: "x".to_string(), value: 42 },
        Instruction::Print { var: "x".to_string() },
    ];

    let mut runtime = Runtime::new(instructions);
    assert!(runtime.run().is_ok());
}

#[test]
fn test_arithmetic_operations() {
    let instructions = vec![
        Instruction::LoadImmediate { var: "a".to_string(), value: 10 },
        Instruction::LoadImmediate { var: "b".to_string(), value: 5 },
        Instruction::Add { dest: "sum".to_string(), src1: "a".to_string(), src2: "b".to_string() },
        Instruction::Sub { dest: "diff".to_string(), src1: "a".to_string(), src2: "b".to_string() },
        Instruction::Mul { dest: "prod".to_string(), src1: "a".to_string(), src2: "b".to_string() },
        Instruction::Div { dest: "quot".to_string(), src1: "a".to_string(), src2: "b".to_string() },
        Instruction::Print { var: "sum".to_string() },
        Instruction::Print { var: "diff".to_string() },
        Instruction::Print { var: "prod".to_string() },
        Instruction::Print { var: "quot".to_string() },
    ];

    let mut runtime = Runtime::new(instructions);
    assert!(runtime.run().is_ok());
}

#[test]
fn test_error_handling() {
    let instructions = vec![
        Instruction::LoadImmediate { var: "x".to_string(), value: 42 },
        Instruction::Add { dest: "y".to_string(), src1: "x".to_string(), src2: "z".to_string() },
    ];

    let mut runtime = Runtime::new(instructions);
    assert!(runtime.run().is_err());
}

#[test]
fn test_variable_usage() {
    let instructions = vec![
        Instruction::LoadImmediate { var: "x".to_string(), value: 5 },
        Instruction::LoadImmediate { var: "y".to_string(), value: 10 },
        Instruction::Add { dest: "z".to_string(), src1: "x".to_string(), src2: "y".to_string() },
        Instruction::Print { var: "z".to_string() },
    ];

    let mut runtime = Runtime::new(instructions);
    runtime.run().unwrap();

    assert_eq!(runtime.get_var_value("x"), Some(&5));
    assert_eq!(runtime.get_var_value("y"), Some(&10));
    assert_eq!(runtime.get_var_value("z"), Some(&15));
}

#[test]
fn runtime_test_runtime() {
    let instructions = vec![
        Instruction::LoadImmediate { var: "x".to_string(), value: 42 },
        Instruction::LoadImmediate { var: "y".to_string(), value: 10 },
        Instruction::Add { dest: "z".to_string(), src1: "x".to_string(), src2: "y".to_string() },
        Instruction::Print { var: "z".to_string() },
    ];

    let mut runtime = Runtime::new(instructions);
    assert!(runtime.run().is_ok());
}

#[test]
fn runtime_tests_test_runtime() {
    let mut runtime = Runtime::new(Vec::new());
    assert!(runtime.run().is_ok());
}

#[test]
fn print_emits_name_and_value() {
    let mut runtime = Runtime::new(vec![load("x", 42), print("x"), load("n", -7), print("n")]);
    runtime.run().unwrap();
    assert_eq!(runtime.output(), &vec!["x = 42".to_string(), "n = -7".to_string()]);
}

#[test]
fn arithmetic_results() {
    let mut runtime = Runtime::new(vec![
        load("a", 10),
        load("b", 5),
        Instruction::Sub { dest: "d".to_string(), src1: "b".to_string(), src2: "a".to_string() },
        Instruction::Mul { dest: "p".to_string(), src1: "a".to_string(), src2: "b".to_string() },
        Instruction::Div { dest: "q".to_string(), src1: "a".to_string(), src2: "b".to_string() },
    ]);
    runtime.run().unwrap();
    assert_eq!(runtime.get_var_value("d"), Some(&-5));
    assert_eq!(runtime.get_var_value("p"), Some(&50));
    assert_eq!(runtime.get_var_value("q"), Some(&2));
}

#[test]
fn division_rounds_toward_zero() {
    let mut runtime = Runtime::new(vec![
        load("a", -7),
        load("b", 2),
        Instruction::Div { dest: "q".to_string(), src1: "a".to_string(), src2: "b".to_string() },
        Instruction::Div { dest: "r".to_string(), src1: "b".to_string(), src2: "a".to_string() },
    ]);
    runtime.run().unwrap();
    assert_eq!(runtime.get_var_value("q"), Some(&-3));
    assert_eq!(runtime.get_var_value("r"), Some(&0));
}

#[test]
fn last_write_wins() {
    let mut runtime = Runtime::new(vec![load("x", 1), load("x", 2), print("x")]);
    runtime.run().unwrap();
    assert_eq!(runtime.get_var_value("x"), Some(&2));
    assert_eq!(runtime.output(), &vec!["x = 2".to_string()]);
}

#[test]
fn printing_an_undefined_variable_fails() {
    let mut runtime = Runtime::new(vec![print("q")]);
    assert_eq!(runtime.run(), Err(RuntimeError::UndefinedVariable("q".to_string())));
}

#[test]
fn undefined_source_is_named() {
    let mut runtime = Runtime::new(vec![
        load("x", 1),
        Instruction::Mul { dest: "y".to_string(), src1: "x".to_string(), src2: "w".to_string() },
    ]);
    assert_eq!(runtime.run(), Err(RuntimeError::UndefinedVariable("w".to_string())));
}

#[test]
fn division_by_zero_fails() {
    let mut runtime = Runtime::new(vec![
        load("a", 5),
        load("b", 0),
        Instruction::Div { dest: "y".to_string(), src1: "a".to_string(), src2: "b".to_string() },
    ]);
    assert_eq!(runtime.run(), Err(RuntimeError::DivideByZero));
    assert_eq!(runtime.get_var_value("y"), None);
}

#[test]
fn overflow_fails() {
    let mut runtime = Runtime::new(vec![
        load("a", i32::MIN),
        load("b", -1),
        Instruction::Div { dest: "y".to_string(), src1: "a".to_string(), src2: "b".to_string() },
    ]);
    assert_eq!(runtime.run(), Err(RuntimeError::Overflow));
    let mut runtime = Runtime::new(vec![
        load("a", i32::MAX),
        Instruction::Add { dest: "y".to_string(), src1: "a".to_string(), src2: "a".to_string() },
    ]);
    assert_eq!(runtime.run(), Err(RuntimeError::Overflow));
}

#[test]
fn execution_halts_at_the_first_failure() {
    let mut runtime = Runtime::new(vec![load("a", 1), print("a"), print("b"), load("c", 3), print("c")]);
    assert_eq!(runtime.run(), Err(RuntimeError::UndefinedVariable("b".to_string())));
    assert_eq!(runtime.output(), &vec!["a = 1".to_string()]);
    assert_eq!(runtime.get_var_value("c"), None);
}
