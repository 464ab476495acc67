pub mod arith;
pub mod codegen;
pub mod decimal;
pub mod ir;
pub mod lexer;
pub mod optimizer;
pub mod parser;
pub mod pipeline;
pub mod runtime;
pub mod semantic;
