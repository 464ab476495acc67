use crate::arith::{operator_char, operator_of};
use crate::decimal::{decimal, push_decimal};
use crate::ir::{ir_view, irs_view, SpecIR, IR};
use crate::runtime::{instrs_view, Instruction, SpecInstr};
use vstd::prelude::*;

verus! {

/// A linear three-address instruction.
#[derive(Debug)]
pub enum MachineInstruction {
    LoadImmediate { dest: String, value: i32 },
    Add { dest: String, src1: String, src2: String },
    Sub { dest: String, src1: String, src2: String },
    Mul { dest: String, src1: String, src2: String },
    Div { dest: String, src1: String, src2: String },
    Print { var: String },
}

impl View for MachineInstruction {
    type V = SpecInstr;

    open spec fn view(&self) -> SpecInstr {
        match self {
            MachineInstruction::LoadImmediate { dest, value } => SpecInstr::LoadImmediate(
                dest@,
                *value,
            ),
            MachineInstruction::Add { dest, src1, src2 } => SpecInstr::Add(dest@, src1@, src2@),
            MachineInstruction::Sub { dest, src1, src2 } => SpecInstr::Sub(dest@, src1@, src2@),
            MachineInstruction::Mul { dest, src1, src2 } => SpecInstr::Mul(dest@, src1@, src2@),
            MachineInstruction::Div { dest, src1, src2 } => SpecInstr::Div(dest@, src1@, src2@),
            MachineInstruction::Print { var } => SpecInstr::Print(var@),
        }
    }
}

/// The instructions of a vector, as values.
pub open spec fn code_view(v: Seq<MachineInstruction>) -> Seq<SpecInstr> {
    v.map_values(|i: MachineInstruction| i@)
}

/// Why code generation stopped.
#[derive(Debug, Clone, Copy, PartialEq, Eq, Structural)]
pub enum CodegenError {
    /// An operation whose operator is none of `+ - * /`.
    UnknownOperator,
    /// An operand that is neither a constant, a variable nor an operation.
    InvalidOperand,
    /// The temporary counter would pass `usize::MAX`.
    TooManyTemporaries,
}

/// The name of the `n`th temporary: `t0`, `t1`, ...
pub open spec fn temp_name(n: nat) -> Seq<char> {
    seq!['t'] + decimal(n)
}

/// The instruction that applies `op` to two sources.
pub open spec fn arith_instr(op: char, d: Seq<char>, a: Seq<char>, b: Seq<char>) -> SpecInstr {
    if op == '+' {
        SpecInstr::Add(d, a, b)
    } else if op == '-' {
        SpecInstr::Sub(d, a, b)
    } else if op == '*' {
        SpecInstr::Mul(d, a, b)
    } else {
        SpecInstr::Div(d, a, b)
    }
}

/// Code for an operand given the next temporary `n`: its instructions, the name that holds
/// its value, and the next temporary after it. A constant is loaded into a fresh temporary; a
/// variable is read where it is; an operation computes its operands, left first, then itself
/// into a fresh temporary.
pub open spec fn gen_operand(e: SpecIR, n: nat) -> Result<
    (Seq<SpecInstr>, Seq<char>, nat),
    CodegenError,
>
    decreases e,
{
    match e {
        SpecIR::Immediate(v, _) => if n >= usize::MAX {
            Err(CodegenError::TooManyTemporaries)
        } else {
            Ok((seq![SpecInstr::LoadImmediate(temp_name(n), v)], temp_name(n), n + 1))
        },
        SpecIR::Variable(x) => Ok((Seq::empty(), x, n)),
        SpecIR::BinaryOperation(op, l, r, _) => match gen_operand(*l, n) {
            Err(x) => Err(x),
            Ok((cl, sl, n1)) => match gen_operand(*r, n1) {
                Err(x) => Err(x),
                Ok((cr, sr, n2)) => match operator_char(op) {
                    None => Err(CodegenError::UnknownOperator),
                    Some(c) => if n2 >= usize::MAX {
                        Err(CodegenError::TooManyTemporaries)
                    } else {
                        Ok(
                            (
                                cl + cr + seq![arith_instr(c, temp_name(n2), sl, sr)],
                                temp_name(n2),
                                n2 + 1,
                            ),
                        )
                    },
                },
            },
        },
        _ => Err(CodegenError::InvalidOperand),
    }
}

/// Code for one top-level IR node given the next temporary, and the next temporary after it.
/// An operation is flattened as an operand is: its value goes to a fresh temporary.
pub open spec fn gen_node(e: SpecIR, n: nat) -> Result<(Seq<SpecInstr>, nat), CodegenError> {
    match e {
        SpecIR::VariableDeclaration(name, v) => Ok((seq![SpecInstr::LoadImmediate(name, v)], n)),
        SpecIR::Immediate(v, d) => Ok((seq![SpecInstr::LoadImmediate(d, v)], n)),
        SpecIR::Print(x) => Ok((seq![SpecInstr::Print(x)], n)),
        SpecIR::Variable(_) => Ok((Seq::empty(), n)),
        SpecIR::BinaryOperation(..) => match gen_operand(e, n) {
            Ok((c, _, n2)) => Ok((c, n2)),
            Err(x) => Err(x),
        },
    }
}

/// Code for a sequence of IR nodes, in order, and the next temporary after it.
pub open spec fn gen_all(s: Seq<SpecIR>, n: nat) -> Result<(Seq<SpecInstr>, nat), CodegenError>
    decreases s.len(),
{
    if s.len() == 0 {
        Ok((Seq::empty(), n))
    } else {
        match gen_all(s.drop_last(), n) {
            Err(x) => Err(x),
            Ok((front, n1)) => match gen_node(s.last(), n1) {
                Err(x) => Err(x),
                Ok((c, n2)) => Ok((front + c, n2)),
            },
        }
    }
}

fn temp_var(n: usize) -> (r: String)
    ensures
        r@ == temp_name(n as nat),
{
    proof {
        reveal_strlit("t");
    }
    let mut s = "t".to_string();
    push_decimal(&mut s, n as u64);
    s
}

fn arith_instruction(op: char, dest: String, src1: String, src2: String) -> (r: MachineInstruction)
    ensures
        r@ == arith_instr(op, dest@, src1@, src2@),
{
    if op == '+' {
        MachineInstruction::Add { dest, src1, src2 }
    } else if op == '-' {
        MachineInstruction::Sub { dest, src1, src2 }
    } else if op == '*' {
        MachineInstruction::Mul { dest, src1, src2 }
    } else {
        MachineInstruction::Div { dest, src1, src2 }
    }
}

fn push_instruction(out: &mut Vec<MachineInstruction>, i: MachineInstruction)
    ensures
        code_view(final(out)@) == code_view(old(out)@) + seq![i@],
{
    out.push(i);
    assert(code_view(out@) =~= code_view(old(out)@) + seq![i@]);
}

fn generate_operand(e: &IR, n: usize, out: &mut Vec<MachineInstruction>) -> (r: Result<
    (String, usize),
    CodegenError,
>)
    ensures
        match gen_operand(ir_view(e), n as nat) {
            Ok((c, name, n2)) => r matches Ok((nm, k)) && nm@ == name && k == n2 && code_view(
                final(out)@,
            ) == code_view(old(out)@) + c,
            Err(x) => r == Err::<(String, usize), CodegenError>(x),
        },
    decreases e,
{
    match e {
        IR::Immediate { value, .. } => {
            if n == usize::MAX {
                return Err(CodegenError::TooManyTemporaries);
            }
            let t = temp_var(n);
            push_instruction(out, MachineInstruction::LoadImmediate { dest: t.clone(), value: *value });
            Ok((t, n + 1))
        },
        IR::Variable { name } => {
            assert(code_view(out@) =~= code_view(old(out)@) + Seq::empty());
            Ok((name.clone(), n))
        },
        IR::BinaryOperation { operator, left, right, .. } => {
            let (sl, n1) = match generate_operand(left, n, out) {
                Ok(x) => x,
                Err(x) => {
                    return Err(x);
                },
            };
            let (sr, n2) = match generate_operand(right, n1, out) {
                Ok(x) => x,
                Err(x) => {
                    return Err(x);
                },
            };
            let c = match operator_of(operator.as_str()) {
                Some(c) => c,
                None => {
                    return Err(CodegenError::UnknownOperator);
                },
            };
            if n2 == usize::MAX {
                return Err(CodegenError::TooManyTemporaries);
            }
            let t = temp_var(n2);
            push_instruction(out, arith_instruction(c, t.clone(), sl, sr));
            proof {
                let (cl, _, _) = gen_operand(ir_view(left), n as nat)->Ok_0;
                let (cr, _, _) = gen_operand(ir_view(right), n1 as nat)->Ok_0;
                assert(code_view(out@) =~= code_view(old(out)@) + (cl + cr + seq![
                    arith_instr(c, temp_name(n2 as nat), sl@, sr@),
                ]));
            }
            Ok((t, n2 + 1))
        },
        _ => Err(CodegenError::InvalidOperand),
    }
}

fn visit_node(e: &IR, n: usize, out: &mut Vec<MachineInstruction>) -> (r: Result<usize, CodegenError>)
    ensures
        match gen_node(ir_view(e), n as nat) {
            Ok((c, n2)) => r == Ok::<usize, CodegenError>(n2 as usize) && n2 <= usize::MAX
                && code_view(final(out)@) == code_view(old(out)@) + c,
            Err(x) => r == Err::<usize, CodegenError>(x),
        },
{
    match e {
        IR::VariableDeclaration { name, value } => {
            push_instruction(
                out,
                MachineInstruction::LoadImmediate { dest: name.clone(), value: *value },
            );
            Ok(n)
        },
        IR::Immediate { value, dest } => {
            push_instruction(
                out,
                MachineInstruction::LoadImmediate { dest: dest.clone(), value: *value },
            );
            Ok(n)
        },
        IR::Print { var } => {
            push_instruction(out, MachineInstruction::Print { var: var.clone() });
            Ok(n)
        },
        IR::Variable { .. } => {
            assert(code_view(out@) =~= code_view(old(out)@) + Seq::empty());
            Ok(n)
        },
        IR::BinaryOperation { .. } => match generate_operand(e, n, out) {
            Ok((_, k)) => Ok(k),
            Err(x) => Err(x),
        },
    }
}

/// An error in a prefix of the nodes is the error of the whole.
pub proof fn lemma_gen_all_error(s: Seq<SpecIR>, n: nat, k: int)
    requires
        0 <= k <= s.len(),
        gen_all(s.take(k), n) is Err,
    ensures
        gen_all(s, n) == gen_all(s.take(k), n),
    decreases s.len() - k,
{
    if k < s.len() {
        assert(s.take(k + 1).drop_last() =~= s.take(k));
        lemma_gen_all_error(s, n, k + 1);
    } else {
        assert(s.take(k) =~= s);
    }
}

/// Lowers IR to linear instructions, minting temporaries from a counter of its own.
pub struct CodeGenerator {
    temp_var_counter: usize,
}

impl CodeGenerator {
    /// The number of the next temporary.
    pub closed spec fn counter(&self) -> nat {
        self.temp_var_counter as nat
    }

    pub fn new() -> (r: CodeGenerator)
        ensures
            r.counter() == 0,
    {
        CodeGenerator { temp_var_counter: 0 }
    }

    /// Generates the instructions for a sequence of IR nodes, in order. On success the counter
    /// moves past the temporaries used; on an error it stays where it was.
    pub fn generate(&mut self, ir: &Vec<IR>) -> (r: Result<Vec<MachineInstruction>, CodegenError>)
        ensures
            match gen_all(irs_view(ir@), old(self).counter()) {
                Ok((c, n)) => r matches Ok(v) && code_view(v@) == c && final(self).counter() == n,
                Err(x) => r matches Err(y) && y == x && final(self).counter() == old(self).counter(),
            },
    {
        let ghost s = irs_view(ir@);
        let mut out: Vec<MachineInstruction> = Vec::new();
        let mut n = self.temp_var_counter;
        assert(s.take(0) =~= Seq::<SpecIR>::empty());
        assert(code_view(out@) =~= Seq::<SpecInstr>::empty());
        for i in 0..ir.len()
            invariant
                s == irs_view(ir@),
                self.temp_var_counter == old(self).temp_var_counter,
                gen_all(s.take(i as int), old(self).counter()) == Ok::<
                    (Seq<SpecInstr>, nat),
                    CodegenError,
                >((code_view(out@), n as nat)),
        {
            assert(s.take(i + 1).drop_last() =~= s.take(i as int));
            assert(s.take(i + 1).last() == ir_view(&ir[i as int]));
            n = match visit_node(&ir[i], n, &mut out) {
                Ok(k) => k,
                Err(x) => {
                    proof {
                        lemma_gen_all_error(s, old(self).counter(), i + 1);
                    }
                    return Err(x);
                },
            };
        }
        assert(s.take(ir.len() as int) =~= s);
        self.temp_var_counter = n;
        Ok(out)
    }
}

impl MachineInstruction {
    /// The same instruction in the runtime's instruction set.
    pub fn to_instruction(&self) -> (r: Instruction)
        ensures
            r@ == self@,
    {
        match self {
            MachineInstruction::LoadImmediate { dest, value } => Instruction::LoadImmediate {
                var: dest.clone(),
                value: *value,
            },
            MachineInstruction::Add { dest, src1, src2 } => Instruction::Add {
                dest: dest.clone(),
                src1: src1.clone(),
                src2: src2.clone(),
            },
            MachineInstruction::Sub { dest, src1, src2 } => Instruction::Sub {
                dest: dest.clone(),
                src1: src1.clone(),
                src2: src2.clone(),
            },
            MachineInstruction::Mul { dest, src1, src2 } => Instruction::Mul {
                dest: dest.clone(),
                src1: src1.clone(),
                src2: src2.clone(),
            },
            MachineInstruction::Div { dest, src1, src2 } => Instruction::Div {
                dest: dest.clone(),
                src1: src1.clone(),
                src2: src2.clone(),
            },
            MachineInstruction::Print { var } => Instruction::Print { var: var.clone() },
        }
    }
}

/// The generated code in the runtime's instruction set.
pub fn to_runtime(code: &Vec<MachineInstruction>) -> (r: Vec<Instruction>)
    ensures
        instrs_view(r@) == code_view(code@),
{
    let mut r: Vec<Instruction> = Vec::new();
    for i in 0..code.len()
        invariant
            instrs_view(r@) == code_view(code@).take(i as int),
    {
        let ghost before = instrs_view(r@);
        let x = code[i].to_instruction();
        r.push(x);
        assert(instrs_view(r@) =~= before.push(x@));
        assert(code_view(code@).take(i + 1) =~= code_view(code@).take(i as int).push(code@[i as int]@));
    }
    assert(code_view(code@).take(code.len() as int) =~= code_view(code@));
    r
}

} // verus!
