use crate::parser::{ast_type_view, ast_view, ASTNode, ASTNodeType, SpecAst, SpecAstType};
use vstd::prelude::*;

verus! {

/// A node of the intermediate representation.
///
/// `BinaryOperation` keeps its operands as trees; `dest` names the declared variable, or the
/// placeholder `temp` inside an expression, and is the destination of the constant that
/// folding makes of it. `Variable` reads a named variable and stands only as an operand.
#[derive(Debug)]
pub enum IR {
    VariableDeclaration { name: String, value: i32 },
    BinaryOperation { operator: String, left: Box<IR>, right: Box<IR>, dest: String },
    Immediate { value: i32, dest: String },
    Print { var: String },
    Variable { name: String },
}

/// An IR node as a mathematical value.
pub enum SpecIR {
    VariableDeclaration(Seq<char>, i32),
    BinaryOperation(Seq<char>, Box<SpecIR>, Box<SpecIR>, Seq<char>),
    Immediate(i32, Seq<char>),
    Print(Seq<char>),
    Variable(Seq<char>),
}

/// An IR node as a value.
pub open spec fn ir_view(n: &IR) -> SpecIR
    decreases n,
{
    match n {
        IR::VariableDeclaration { name, value } => SpecIR::VariableDeclaration(name@, *value),
        IR::BinaryOperation { operator, left, right, dest } => SpecIR::BinaryOperation(
            operator@,
            Box::new(ir_view(left)),
            Box::new(ir_view(right)),
            dest@,
        ),
        IR::Immediate { value, dest } => SpecIR::Immediate(*value, dest@),
        IR::Print { var } => SpecIR::Print(var@),
        IR::Variable { name } => SpecIR::Variable(name@),
    }
}

/// The IR nodes of a vector, as values.
pub open spec fn irs_view(v: Seq<IR>) -> Seq<SpecIR> {
    Seq::new(v.len(), |i: int| ir_view(&v[i]))
}

/// The destination of a value computed inside an expression, before temporaries are given.
pub open spec fn placeholder() -> Seq<char> {
    seq!['t', 'e', 'm', 'p']
}

/// Why lowering stopped.
#[derive(Debug, Clone, Copy, PartialEq, Eq, Structural)]
pub enum LowerError {
    /// A program or a declaration where a statement or an operand belongs.
    UnsupportedNode,
    /// A declaration whose value is neither a number nor an operation.
    UnsupportedDeclaration,
}

/// An operation over two lowered operands; the left operand's error comes first.
pub open spec fn combine(
    op: Seq<char>,
    l: Result<SpecIR, LowerError>,
    r: Result<SpecIR, LowerError>,
) -> Result<SpecIR, LowerError> {
    match l {
        Err(e) => Err(e),
        Ok(li) => match r {
            Err(e) => Err(e),
            Ok(ri) => Ok(SpecIR::BinaryOperation(op, Box::new(li), Box::new(ri), placeholder())),
        },
    }
}

/// The IR of a node standing as an operand.
pub open spec fn lower_operand(a: SpecAst) -> Result<SpecIR, LowerError>
    decreases a,
{
    match a {
        SpecAst::Number(n) => Ok(SpecIR::Immediate(n, placeholder())),
        SpecAst::BinaryOperation(l, op, r) => combine(op, lower_operand(*l), lower_operand(*r)),
        SpecAst::Expression(e) => match e {
            SpecAstType::Identifier(x) => Ok(SpecIR::Variable(x)),
            SpecAstType::Number(n) => Ok(SpecIR::Immediate(n, placeholder())),
            SpecAstType::BinaryOperation(op, l, r) => combine(
                op,
                lower_operand(*l),
                lower_operand(*r),
            ),
        },
        _ => Err(LowerError::UnsupportedNode),
    }
}

/// An IR node with its destination set to `d`, where it has one that an operation writes.
pub open spec fn with_dest(n: SpecIR, d: Seq<char>) -> SpecIR {
    match n {
        SpecIR::BinaryOperation(op, l, r, _) => SpecIR::BinaryOperation(op, l, r, d),
        other => other,
    }
}

/// The IR of one statement: a declaration binds a number or the value of an operation to its
/// name, a bare identifier prints it, and any other expression is lowered as an operand.
pub open spec fn lower_statement(a: SpecAst) -> Result<SpecIR, LowerError> {
    match a {
        SpecAst::VariableDeclaration(name, v) => match *v {
            SpecAst::Number(n) => Ok(SpecIR::VariableDeclaration(name, n)),
            SpecAst::Expression(SpecAstType::Number(n)) => Ok(SpecIR::VariableDeclaration(name, n)),
            SpecAst::BinaryOperation(..) | SpecAst::Expression(SpecAstType::BinaryOperation(..)) => {
                match lower_operand(*v) {
                    Ok(x) => Ok(with_dest(x, name)),
                    Err(e) => Err(e),
                }
            },
            _ => Err(LowerError::UnsupportedDeclaration),
        },
        SpecAst::Expression(SpecAstType::Identifier(x)) => Ok(SpecIR::Print(x)),
        other => lower_operand(other),
    }
}

/// The IR of a sequence of statements, in order; the first error stops it.
pub open spec fn lower_statements(s: Seq<SpecAst>) -> Result<Seq<SpecIR>, LowerError>
    decreases s.len(),
{
    if s.len() == 0 {
        Ok(Seq::empty())
    } else {
        match lower_statements(s.drop_last()) {
            Err(e) => Err(e),
            Ok(front) => match lower_statement(s.last()) {
                Ok(x) => Ok(front.push(x)),
                Err(e) => Err(e),
            },
        }
    }
}

/// The IR of a syntax tree: of each statement of a program, or of a single statement.
pub open spec fn lower_program(a: SpecAst) -> Result<Seq<SpecIR>, LowerError> {
    match a {
        SpecAst::Program(s) => lower_statements(s),
        other => match lower_statement(other) {
            Ok(x) => Ok(seq![x]),
            Err(e) => Err(e),
        },
    }
}

pub open spec fn ir_result_view(r: Result<IR, LowerError>) -> Result<SpecIR, LowerError> {
    match r {
        Ok(n) => Ok(ir_view(&n)),
        Err(e) => Err(e),
    }
}

pub open spec fn irs_result_view(r: Result<Vec<IR>, LowerError>) -> Result<Seq<SpecIR>, LowerError> {
    match r {
        Ok(v) => Ok(irs_view(v@)),
        Err(e) => Err(e),
    }
}

fn placeholder_name() -> (r: String)
    ensures
        r@ == placeholder(),
{
    proof {
        reveal_strlit("temp");
    }
    "temp".to_string()
}

impl IR {
    /// A copy of this node and of everything under it.
    pub fn duplicate(&self) -> (r: IR)
        ensures
            ir_view(&r) == ir_view(self),
        decreases self,
    {
        match self {
            IR::VariableDeclaration { name, value } => IR::VariableDeclaration {
                name: name.clone(),
                value: *value,
            },
            IR::BinaryOperation { operator, left, right, dest } => IR::BinaryOperation {
                operator: operator.clone(),
                left: Box::new(left.duplicate()),
                right: Box::new(right.duplicate()),
                dest: dest.clone(),
            },
            IR::Immediate { value, dest } => IR::Immediate { value: *value, dest: dest.clone() },
            IR::Print { var } => IR::Print { var: var.clone() },
            IR::Variable { name } => IR::Variable { name: name.clone() },
        }
    }
}

/// A copy of each node of `v`.
pub fn duplicate_all(v: &Vec<IR>) -> (r: Vec<IR>)
    ensures
        irs_view(r@) == irs_view(v@),
{
    let mut r: Vec<IR> = Vec::new();
    for i in 0..v.len()
        invariant
            irs_view(r@) == irs_view(v@).take(i as int),
    {
        let ghost before = irs_view(r@);
        let x = v[i].duplicate();
        r.push(x);
        assert(irs_view(r@) =~= before.push(ir_view(&x)));
        assert(irs_view(v@).take(i + 1) =~= irs_view(v@).take(i as int).push(irs_view(v@)[i as int]));
    }
    assert(irs_view(v@).take(v.len() as int) =~= irs_view(v@));
    r
}

fn operation(operator: &String, l: Result<IR, LowerError>, r: Result<IR, LowerError>) -> (out:
    Result<IR, LowerError>)
    ensures
        ir_result_view(out) == combine(operator@, ir_result_view(l), ir_result_view(r)),
{
    match l {
        Err(e) => Err(e),
        Ok(li) => match r {
            Err(e) => Err(e),
            Ok(ri) => Ok(
                IR::BinaryOperation {
                    operator: operator.clone(),
                    left: Box::new(li),
                    right: Box::new(ri),
                    dest: placeholder_name(),
                },
            ),
        },
    }
}

fn generate_ir_from_node(node: &ASTNode) -> (r: Result<IR, LowerError>)
    ensures
        ir_result_view(r) == lower_operand(ast_view(node)),
    decreases node,
{
    match node {
        ASTNode::Number(n) => Ok(IR::Immediate { value: *n, dest: placeholder_name() }),
        ASTNode::BinaryOperation { left, operator, right } => {
            let l = generate_ir_from_node(left);
            let r = generate_ir_from_node(right);
            operation(operator, l, r)
        },
        ASTNode::Expression(e) => {
            let r = generate_ir_from_type(e);
            r
        },
        _ => Err(LowerError::UnsupportedNode),
    }
}

fn generate_ir_from_type(e: &ASTNodeType) -> (r: Result<IR, LowerError>)
    ensures
        ir_result_view(r) == lower_operand(SpecAst::Expression(ast_type_view(e))),
    decreases e,
{
    match e {
        ASTNodeType::Identifier(x) => Ok(IR::Variable { name: x.clone() }),
        ASTNodeType::Number(n) => Ok(IR::Immediate { value: *n, dest: placeholder_name() }),
        ASTNodeType::BinaryOperation { operator, left, right } => {
            let l = generate_ir_from_node(left);
            let r = generate_ir_from_node(right);
            operation(operator, l, r)
        },
    }
}

fn lower_declaration(name: &String, value: &Box<ASTNode>) -> (r: Result<IR, LowerError>)
    ensures
        ir_result_view(r) == lower_statement(
            SpecAst::VariableDeclaration(name@, Box::new(ast_view(value))),
        ),
{
    let value: &ASTNode = &**value;
    let is_operation = match value {
        ASTNode::BinaryOperation { .. } => true,
        ASTNode::Expression(ASTNodeType::BinaryOperation { .. }) => true,
        _ => false,
    };
    proof {
        match value {
            ASTNode::Expression(e) => {
                assert(ast_view(value) == SpecAst::Expression(ast_type_view(e)));
            },
            _ => {},
        }
    }
    match value {
        ASTNode::Number(n) => {
            return Ok(IR::VariableDeclaration { name: name.clone(), value: *n });
        },
        ASTNode::Expression(ASTNodeType::Number(n)) => {
            return Ok(IR::VariableDeclaration { name: name.clone(), value: *n });
        },
        _ => {},
    }
    if !is_operation {
        return Err(LowerError::UnsupportedDeclaration);
    }
    match generate_ir_from_node(value) {
        Ok(IR::BinaryOperation { operator, left, right, dest: _ }) => Ok(
            IR::BinaryOperation { operator, left, right, dest: name.clone() },
        ),
        other => other,
    }
}

fn visit_node(node: &ASTNode) -> (r: Result<IR, LowerError>)
    ensures
        ir_result_view(r) == lower_statement(ast_view(node)),
{
    match node {
        ASTNode::VariableDeclaration { name, value } => {
            assert(ast_view(node) == SpecAst::VariableDeclaration(name@, Box::new(ast_view(value))));
            lower_declaration(name, value)
        },
        ASTNode::Expression(e) => {
            assert(ast_view(node) == SpecAst::Expression(ast_type_view(e)));
            match e {
                ASTNodeType::Identifier(x) => Ok(IR::Print { var: x.clone() }),
                _ => generate_ir_from_node(node),
            }
        },
        _ => generate_ir_from_node(node),
    }
}

fn lower_nodes(nodes: &Vec<ASTNode>) -> (r: Result<Vec<IR>, LowerError>)
    ensures
        irs_result_view(r) == lower_statements(Seq::new(nodes.len() as nat, |k: int| ast_view(&nodes[k]))),
{
    let ghost s = Seq::new(nodes.len() as nat, |k: int| ast_view(&nodes[k]));
    let mut out: Vec<IR> = Vec::new();
    assert(s.take(0) =~= Seq::<SpecAst>::empty());
    assert(irs_view(out@) =~= Seq::<SpecIR>::empty());
    for i in 0..nodes.len()
        invariant
            s == Seq::new(nodes.len() as nat, |k: int| ast_view(&nodes[k])),
            lower_statements(s.take(i as int)) == Ok::<Seq<SpecIR>, LowerError>(irs_view(out@)),
    {
        assert(s.take(i + 1).drop_last() =~= s.take(i as int));
        assert(s.take(i + 1).last() == ast_view(&nodes[i as int]));
        let x = match visit_node(&nodes[i]) {
            Ok(x) => x,
            Err(e) => {
                proof {
                    lemma_lower_statements_error(s, i + 1);
                }
                return Err(e);
            },
        };
        let ghost before = irs_view(out@);
        out.push(x);
        assert(irs_view(out@) =~= before.push(ir_view(&x)));
    }
    assert(s.take(nodes.len() as int) =~= s);
    Ok(out)
}

/// An error in a prefix of the statements is the error of the whole.
pub proof fn lemma_lower_statements_error(s: Seq<SpecAst>, k: int)
    requires
        0 <= k <= s.len(),
        lower_statements(s.take(k)) is Err,
    ensures
        lower_statements(s) == lower_statements(s.take(k)),
    decreases s.len() - k,
{
    if k < s.len() {
        assert(s.take(k + 1).drop_last() =~= s.take(k));
        lemma_lower_statements_error(s, k + 1);
    } else {
        assert(s.take(k) =~= s);
    }
}

/// Lowers syntax trees to IR, and keeps the IR of the last successful lowering.
pub struct IRGenerator {
    ir: Vec<IR>,
}

impl IRGenerator {
    /// The IR kept from the last successful lowering.
    pub closed spec fn kept(&self) -> Seq<SpecIR> {
        irs_view(self.ir@)
    }

    pub fn new() -> (r: IRGenerator)
        ensures
            r.kept() == Seq::<SpecIR>::empty(),
    {
        let r = IRGenerator { ir: Vec::new() };
        assert(r.kept() =~= Seq::<SpecIR>::empty());
        r
    }

    /// Lowers a syntax tree; on success the result is also kept.
    pub fn generate(&mut self, ast: &ASTNode) -> (r: Result<Vec<IR>, LowerError>)
        ensures
            irs_result_view(r) == lower_program(ast_view(ast)),
            final(self).kept() == match r {
                Ok(v) => irs_view(v@),
                Err(_) => old(self).kept(),
            },
    {
        let lowered = match ast {
            ASTNode::Program(nodes) => {
                let ghost inner = match ast_view(ast) {
                    SpecAst::Program(s) => s,
                    _ => Seq::empty(),
                };
                assert(inner =~= Seq::new(nodes.len() as nat, |k: int| ast_view(&nodes[k])));
                lower_nodes(nodes)
            },
            _ => match visit_node(ast) {
                Ok(x) => {
                    let v = vec![x];
                    assert(irs_view(v@) =~= seq![ir_view(&x)]);
                    Ok(v)
                },
                Err(e) => Err(e),
            },
        };
        match lowered {
            Ok(v) => {
                self.ir = duplicate_all(&v);
                Ok(v)
            },
            Err(e) => Err(e),
        }
    }

    /// The IR kept from the last successful lowering.
    pub fn get_ir(&self) -> (r: &Vec<IR>)
        ensures
            irs_view(r@) == self.kept(),
    {
        &self.ir
    }
}

} // verus!
