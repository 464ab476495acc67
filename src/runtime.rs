use crate::arith::{compute, in_i32, op_value};
use crate::decimal::{push_signed_decimal, signed_decimal};
use vstd::prelude::*;

verus! {

/// An instruction the runtime executes.
#[derive(Debug)]
pub enum Instruction {
    LoadImmediate { var: String, value: i32 },
    Add { dest: String, src1: String, src2: String },
    Sub { dest: String, src1: String, src2: String },
    Mul { dest: String, src1: String, src2: String },
    Div { dest: String, src1: String, src2: String },
    Print { var: String },
}

/// A linear instruction as a mathematical value.
pub enum SpecInstr {
    LoadImmediate(Seq<char>, i32),
    Add(Seq<char>, Seq<char>, Seq<char>),
    Sub(Seq<char>, Seq<char>, Seq<char>),
    Mul(Seq<char>, Seq<char>, Seq<char>),
    Div(Seq<char>, Seq<char>, Seq<char>),
    Print(Seq<char>),
}

impl View for Instruction {
    type V = SpecInstr;

    open spec fn view(&self) -> SpecInstr {
        match self {
            Instruction::LoadImmediate { var, value } => SpecInstr::LoadImmediate(var@, *value),
            Instruction::Add { dest, src1, src2 } => SpecInstr::Add(dest@, src1@, src2@),
            Instruction::Sub { dest, src1, src2 } => SpecInstr::Sub(dest@, src1@, src2@),
            Instruction::Mul { dest, src1, src2 } => SpecInstr::Mul(dest@, src1@, src2@),
            Instruction::Div { dest, src1, src2 } => SpecInstr::Div(dest@, src1@, src2@),
            Instruction::Print { var } => SpecInstr::Print(var@),
        }
    }
}

/// The instructions of a vector, as values.
pub open spec fn instrs_view(v: Seq<Instruction>) -> Seq<SpecInstr> {
    v.map_values(|i: Instruction| i@)
}

/// Why execution stopped.
#[derive(Debug, Clone, PartialEq, Eq)]
pub enum RuntimeError {
    /// A variable was read before any instruction stored a value under its name.
    UndefinedVariable(String),
    /// A division whose right operand is zero.
    DivideByZero,
    /// An arithmetic result that does not fit in an `i32`.
    Overflow,
}

pub enum SpecRuntimeError {
    UndefinedVariable(Seq<char>),
    DivideByZero,
    Overflow,
}

impl View for RuntimeError {
    type V = SpecRuntimeError;

    open spec fn view(&self) -> SpecRuntimeError {
        match self {
            RuntimeError::UndefinedVariable(name) => SpecRuntimeError::UndefinedVariable(name@),
            RuntimeError::DivideByZero => SpecRuntimeError::DivideByZero,
            RuntimeError::Overflow => SpecRuntimeError::Overflow,
        }
    }
}

/// What a run leaves: the variable store, the printed lines, and the error that stopped it.
pub struct Outcome {
    pub store: Map<Seq<char>, i32>,
    pub output: Seq<Seq<char>>,
    pub error: Option<SpecRuntimeError>,
}

/// The line that printing `var` holding `value` emits: `var = value`.
pub open spec fn print_line(var: Seq<char>, value: i32) -> Seq<char> {
    var + seq![' ', '=', ' '] + signed_decimal(value as int)
}

/// One arithmetic instruction: both sources must be defined, the right one non-zero for a
/// division, and the exact result must fit in an `i32`.
pub open spec fn arith_step(
    store: Map<Seq<char>, i32>,
    op: char,
    dest: Seq<char>,
    a: Seq<char>,
    b: Seq<char>,
) -> Result<Map<Seq<char>, i32>, SpecRuntimeError> {
    if !store.contains_key(a) {
        Err(SpecRuntimeError::UndefinedVariable(a))
    } else if !store.contains_key(b) {
        Err(SpecRuntimeError::UndefinedVariable(b))
    } else if op == '/' && store[b] == 0 {
        Err(SpecRuntimeError::DivideByZero)
    } else if !in_i32(op_value(op, store[a] as int, store[b] as int)) {
        Err(SpecRuntimeError::Overflow)
    } else {
        Ok(store.insert(dest, op_value(op, store[a] as int, store[b] as int) as i32))
    }
}

/// The effect of one instruction on the store and the printed lines.
pub open spec fn step(store: Map<Seq<char>, i32>, output: Seq<Seq<char>>, ins: SpecInstr) -> Result<
    (Map<Seq<char>, i32>, Seq<Seq<char>>),
    SpecRuntimeError,
> {
    let arith = |r: Result<Map<Seq<char>, i32>, SpecRuntimeError>|
        match r {
            Ok(s) => Ok((s, output)),
            Err(e) => Err(e),
        };
    match ins {
        SpecInstr::LoadImmediate(d, v) => Ok((store.insert(d, v), output)),
        SpecInstr::Add(d, a, b) => arith(arith_step(store, '+', d, a, b)),
        SpecInstr::Sub(d, a, b) => arith(arith_step(store, '-', d, a, b)),
        SpecInstr::Mul(d, a, b) => arith(arith_step(store, '*', d, a, b)),
        SpecInstr::Div(d, a, b) => arith(arith_step(store, '/', d, a, b)),
        SpecInstr::Print(v) => if store.contains_key(v) {
            Ok((store, output.push(print_line(v, store[v]))))
        } else {
            Err(SpecRuntimeError::UndefinedVariable(v))
        },
    }
}

/// Executes `code` in order from the given store and printed lines, stopping at the first
/// instruction that fails.
pub open spec fn run_from(
    code: Seq<SpecInstr>,
    store: Map<Seq<char>, i32>,
    output: Seq<Seq<char>>,
) -> Outcome
    decreases code.len(),
{
    if code.len() == 0 {
        Outcome { store, output, error: None }
    } else {
        match step(store, output, code[0]) {
            Err(e) => Outcome { store, output, error: Some(e) },
            Ok((s, o)) => run_from(code.drop_first(), s, o),
        }
    }
}

/// Executing a program on an empty store.
pub open spec fn run_program(code: Seq<SpecInstr>) -> Outcome {
    run_from(code, Map::empty(), Seq::empty())
}

/// The map that a list of names and a list of values stand for; a later entry wins.
pub open spec fn store_of(names: Seq<Seq<char>>, values: Seq<i32>) -> Map<Seq<char>, i32>
    decreases names.len(),
{
    if names.len() == 0 || values.len() == 0 {
        Map::empty()
    } else {
        store_of(names.drop_last(), values.drop_last()).insert(names.last(), values.last())
    }
}

/// No name occurs twice.
pub open spec fn unique(names: Seq<Seq<char>>) -> bool {
    forall|i: int, j: int| 0 <= i < names.len() && 0 <= j < names.len() && i != j ==> names[i] != names[j]
}

pub proof fn lemma_store_absent(names: Seq<Seq<char>>, values: Seq<i32>, k: Seq<char>)
    requires
        names.len() == values.len(),
        forall|i: int| 0 <= i < names.len() ==> names[i] != k,
    ensures
        !store_of(names, values).contains_key(k),
    decreases names.len(),
{
    if names.len() > 0 {
        lemma_store_absent(names.drop_last(), values.drop_last(), k);
    }
}

pub proof fn lemma_store_lookup(names: Seq<Seq<char>>, values: Seq<i32>, i: int)
    requires
        names.len() == values.len(),
        unique(names),
        0 <= i < names.len(),
    ensures
        store_of(names, values).contains_key(names[i]),
        store_of(names, values)[names[i]] == values[i],
    decreases names.len(),
{
    if i < names.len() - 1 {
        lemma_store_lookup(names.drop_last(), values.drop_last(), i);
    }
}

pub proof fn lemma_store_update(names: Seq<Seq<char>>, values: Seq<i32>, i: int, v: i32)
    requires
        names.len() == values.len(),
        unique(names),
        0 <= i < names.len(),
    ensures
        store_of(names, values.update(i, v)) == store_of(names, values).insert(names[i], v),
    decreases names.len(),
{
    let n = names.len();
    if i == n - 1 {
        assert(values.update(i, v).drop_last() =~= values.drop_last());
        assert(store_of(names, values.update(i, v)) =~= store_of(names, values).insert(names[i], v));
    } else {
        lemma_store_update(names.drop_last(), values.drop_last(), i, v);
        assert(values.update(i, v).drop_last() =~= values.drop_last().update(i, v));
        assert(names[i] != names[n - 1]);
        assert(store_of(names, values.update(i, v)) =~= store_of(names, values).insert(names[i], v));
    }
}

/// The texts of a vector of strings.
pub open spec fn names_view(v: Seq<String>) -> Seq<Seq<char>> {
    v.map_values(|s: String| s@)
}

/// `r` failed with the error `e`.
pub open spec fn error_matches(r: Result<(), RuntimeError>, e: SpecRuntimeError) -> bool {
    r matches Err(x) && x@ == e
}

fn find(names: &Vec<String>, k: &String) -> (r: Option<usize>)
    ensures
        match r {
            Some(i) => i < names.len() && names_view(names@)[i as int] == k@,
            None => forall|i: int| 0 <= i < names.len() ==> names_view(names@)[i] != k@,
        },
{
    for i in 0..names.len()
        invariant
            forall|j: int| 0 <= j < i ==> names_view(names@)[j] != k@,
    {
        if names[i] == *k {
            return Some(i);
        }
    }
    None
}

/// The value stored under `k`, if any.
fn load(names: &Vec<String>, values: &Vec<i32>, k: &String) -> (r: Option<i32>)
    requires
        names.len() == values.len(),
        unique(names_view(names@)),
    ensures
        match r {
            Some(v) => store_of(names_view(names@), values@).contains_key(k@) && v == store_of(
                names_view(names@),
                values@,
            )[k@],
            None => !store_of(names_view(names@), values@).contains_key(k@),
        },
{
    match find(names, k) {
        Some(i) => {
            proof {
                lemma_store_lookup(names_view(names@), values@, i as int);
            }
            Some(values[i])
        },
        None => {
            proof {
                lemma_store_absent(names_view(names@), values@, k@);
            }
            None
        },
    }
}

/// Stores `v` under `k`, replacing what was stored there.
fn store(names: &mut Vec<String>, values: &mut Vec<i32>, k: &String, v: i32)
    requires
        old(names).len() == old(values).len(),
        unique(names_view(old(names)@)),
    ensures
        final(names).len() == final(values).len(),
        unique(names_view(final(names)@)),
        store_of(names_view(final(names)@), final(values)@) == store_of(
            names_view(old(names)@),
            old(values)@,
        ).insert(k@, v),
{
    match find(names, k) {
        Some(i) => {
            proof {
                lemma_store_update(names_view(names@), values@, i as int, v);
            }
            values.set(i, v);
        },
        None => {
            let ghost before = names_view(names@);
            names.push(k.clone());
            values.push(v);
            assert(names_view(names@) =~= before.push(k@));
            assert(names_view(names@).drop_last() =~= before);
            assert(values@.drop_last() =~= old(values)@);
        },
    }
}

fn execute(
    names: &mut Vec<String>,
    values: &mut Vec<i32>,
    output: &mut Vec<String>,
    ins: &Instruction,
) -> (r: Result<(), RuntimeError>)
    requires
        old(names).len() == old(values).len(),
        unique(names_view(old(names)@)),
    ensures
        final(names).len() == final(values).len(),
        unique(names_view(final(names)@)),
        match step(store_of(names_view(old(names)@), old(values)@), names_view(old(output)@), ins@) {
            Ok((st, out)) => r is Ok && store_of(names_view(final(names)@), final(values)@) == st
                && names_view(final(output)@) == out,
            Err(e) => error_matches(r, e) && final(names)@ == old(names)@ && final(values)@ == old(
                values,
            )@ && final(output)@ == old(output)@,
        },
{
    let (op, dest, src1, src2) = match ins {
        Instruction::LoadImmediate { var, value } => {
            store(names, values, var, *value);
            return Ok(());
        },
        Instruction::Print { var } => {
            let value = match load(names, values, var) {
                Some(v) => v,
                None => {
                    return Err(RuntimeError::UndefinedVariable(var.clone()));
                },
            };
            let mut line = var.clone();
            let separator = " = ";
            proof {
                reveal_strlit(" = ");
            }
            assert(separator@ =~= seq![' ', '=', ' ']);
            line.append(separator);
            push_signed_decimal(&mut line, value);
            assert(line@ =~= print_line(var@, value));
            let ghost before = names_view(output@);
            output.push(line);
            assert(names_view(output@) =~= before.push(print_line(var@, value)));
            return Ok(());
        },
        Instruction::Add { dest, src1, src2 } => ('+', dest, src1, src2),
        Instruction::Sub { dest, src1, src2 } => ('-', dest, src1, src2),
        Instruction::Mul { dest, src1, src2 } => ('*', dest, src1, src2),
        Instruction::Div { dest, src1, src2 } => ('/', dest, src1, src2),
    };
    let a = match load(names, values, src1) {
        Some(v) => v,
        None => {
            return Err(RuntimeError::UndefinedVariable(src1.clone()));
        },
    };
    let b = match load(names, values, src2) {
        Some(v) => v,
        None => {
            return Err(RuntimeError::UndefinedVariable(src2.clone()));
        },
    };
    if op == '/' && b == 0 {
        return Err(RuntimeError::DivideByZero);
    }
    match compute(op, a, b) {
        Some(v) => {
            store(names, values, dest, v);
            Ok(())
        },
        None => Err(RuntimeError::Overflow),
    }
}

/// Executes a program of instructions against a variable store, and keeps the printed lines.
pub struct Runtime {
    instructions: Vec<Instruction>,
    names: Vec<String>,
    values: Vec<i32>,
    output: Vec<String>,
}

impl Runtime {
    /// The store's names are unique and each has a value.
    pub closed spec fn wf(&self) -> bool {
        &&& self.names.len() == self.values.len()
        &&& unique(names_view(self.names@))
    }

    /// The instructions this runtime executes.
    pub closed spec fn program(&self) -> Seq<SpecInstr> {
        instrs_view(self.instructions@)
    }

    /// The variable store.
    pub closed spec fn store(&self) -> Map<Seq<char>, i32> {
        store_of(names_view(self.names@), self.values@)
    }

    /// The lines printed so far.
    pub closed spec fn printed(&self) -> Seq<Seq<char>> {
        names_view(self.output@)
    }

    pub fn new(instructions: Vec<Instruction>) -> (r: Runtime)
        ensures
            r.wf(),
            r.program() == instrs_view(instructions@),
            r.store() == Map::<Seq<char>, i32>::empty(),
            r.printed() == Seq::<Seq<char>>::empty(),
    {
        let r = Runtime { instructions, names: Vec::new(), values: Vec::new(), output: Vec::new() };
        assert(r.printed() =~= Seq::<Seq<char>>::empty());
        r
    }

    /// Executes the instructions in order, halting at the first one that fails.
    pub fn run(&mut self) -> (r: Result<(), RuntimeError>)
        requires
            old(self).wf(),
        ensures
            final(self).wf(),
            final(self).program() == old(self).program(),
            final(self).store() == run_from(old(self).program(), old(self).store(), old(self).printed()).store,
            final(self).printed() == run_from(old(self).program(), old(self).store(), old(self).printed()).output,
            match run_from(old(self).program(), old(self).store(), old(self).printed()).error {
                None => r is Ok,
                Some(e) => error_matches(r, e),
            },
    {
        let ghost prog = self.program();
        let ghost outcome = run_from(prog, self.store(), self.printed());
        let n = self.instructions.len();
        let mut i: usize = 0;
        assert(prog.subrange(0, n as int) =~= prog);
        while i < n
            invariant
                self.wf(),
                n == self.instructions.len(),
                i <= n,
                prog == self.program(),
                prog == old(self).program(),
                outcome == run_from(old(self).program(), old(self).store(), old(self).printed()),
                outcome == run_from(prog.subrange(i as int, n as int), self.store(), self.printed()),
            decreases n - i,
        {
            assert(prog.subrange(i as int, n as int)[0] == self.instructions@[i as int]@);
            assert(prog.subrange(i as int, n as int).drop_first() =~= prog.subrange(i + 1, n as int));
            match execute(&mut self.names, &mut self.values, &mut self.output, &self.instructions[i]) {
                Err(e) => {
                    return Err(e);
                },
                Ok(()) => {},
            }
            i = i + 1;
        }
        Ok(())
    }

    /// The value stored under `var`, if any.
    pub fn get_var_value(&self, var: &str) -> (r: Option<&i32>)
        requires
            self.wf(),
        ensures
            match r {
                Some(v) => self.store().contains_key(var@) && *v == self.store()[var@],
                None => !self.store().contains_key(var@),
            },
    {
        let key = var.to_string();
        match find(&self.names, &key) {
            Some(i) => {
                proof {
                    lemma_store_lookup(names_view(self.names@), self.values@, i as int);
                }
                Some(&self.values[i])
            },
            None => {
                proof {
                    lemma_store_absent(names_view(self.names@), self.values@, var@);
                }
                None
            },
        }
    }

    /// The lines printed so far, one per executed `Print`.
    pub fn output(&self) -> (r: &Vec<String>)
        ensures
            names_view(r@) == self.printed(),
    {
        &self.output
    }
}

} // verus!
