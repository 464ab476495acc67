use crate::parser::ASTNode;
use vstd::prelude::*;

verus! {

/// Checks a syntax tree before lowering. The language has one flat namespace and no
/// declarations to check against each other, so every tree passes.
pub struct SemanticAnalyzer;

impl SemanticAnalyzer {
    pub fn new() -> SemanticAnalyzer {
        SemanticAnalyzer
    }

    /// Checks a syntax tree; every tree passes.
    pub fn analyze(&self, ast: &ASTNode) -> (r: Result<(), String>)
        ensures
            r is Ok,
    {
        Ok(())
    }
}

} // verus!
