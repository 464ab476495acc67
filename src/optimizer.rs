use crate::arith::{compute, in_i32, is_arith_op, op_value, operator_char, operator_of};
use crate::ir::{ir_view, irs_view, SpecIR, IR};
use vstd::prelude::*;

verus! {

/// Why optimization stopped.
#[derive(Debug, Clone, Copy, PartialEq, Eq, Structural)]
pub enum OptimizeError {
    /// An operation on two constants whose operator is none of `+ - * /`.
    UnknownOperator,
    /// A division of a constant by the constant zero.
    DivideByZero,
    /// An operation on two constants whose value does not fit in an `i32`.
    Overflow,
}

/// The value of an operation on two constants.
pub open spec fn fold_value(op: Seq<char>, a: i32, b: i32) -> Result<i32, OptimizeError> {
    match operator_char(op) {
        None => Err(OptimizeError::UnknownOperator),
        Some(c) => if c == '/' && b == 0 {
            Err(OptimizeError::DivideByZero)
        } else if in_i32(op_value(c, a as int, b as int)) {
            Ok(op_value(c, a as int, b as int) as i32)
        } else {
            Err(OptimizeError::Overflow)
        },
    }
}

/// Constant folding of one node, bottom-up: the operands are folded first, and an operation
/// whose folded operands are both constants becomes a constant with the operation's
/// destination.
pub open spec fn fold_node(e: SpecIR) -> Result<SpecIR, OptimizeError>
    decreases e,
{
    match e {
        SpecIR::BinaryOperation(op, l, r, d) => match fold_node(*l) {
            Err(x) => Err(x),
            Ok(lf) => match fold_node(*r) {
                Err(x) => Err(x),
                Ok(rf) => match (lf, rf) {
                    (SpecIR::Immediate(a, _), SpecIR::Immediate(b, _)) => match fold_value(op, a, b) {
                        Ok(v) => Ok(SpecIR::Immediate(v, d)),
                        Err(x) => Err(x),
                    },
                    _ => Ok(SpecIR::BinaryOperation(op, Box::new(lf), Box::new(rf), d)),
                },
            },
        },
        other => Ok(other),
    }
}

/// Constant folding of each node of a sequence; the first error stops it.
pub open spec fn fold_all(s: Seq<SpecIR>) -> Result<Seq<SpecIR>, OptimizeError>
    decreases s.len(),
{
    if s.len() == 0 {
        Ok(Seq::empty())
    } else {
        match fold_all(s.drop_last()) {
            Err(x) => Err(x),
            Ok(front) => match fold_node(s.last()) {
                Ok(f) => Ok(front.push(f)),
                Err(x) => Err(x),
            },
        }
    }
}

/// The variables that the operand tree of a node reads.
pub open spec fn reads(e: SpecIR) -> Set<Seq<char>>
    decreases e,
{
    match e {
        SpecIR::Variable(n) => set![n],
        SpecIR::BinaryOperation(_, l, r, _) => reads(*l).union(reads(*r)),
        _ => Set::empty(),
    }
}

/// Whether dead-code elimination keeps node `x`, given the variables live after it: a constant
/// or a declaration only if its destination is live, every other node always.
pub open spec fn dce_keeps(x: SpecIR, live: Set<Seq<char>>) -> bool {
    match x {
        SpecIR::Immediate(_, d) => live.contains(d),
        SpecIR::VariableDeclaration(d, _) => live.contains(d),
        _ => true,
    }
}

/// The variables live before node `x`, given those live after it: a print makes its variable
/// live; a kept constant or declaration ends the life of its destination; an operation ends the
/// life of its destination and makes every variable its operands read live.
pub open spec fn live_before(x: SpecIR, live: Set<Seq<char>>) -> Set<Seq<char>> {
    match x {
        SpecIR::Print(v) => live.insert(v),
        SpecIR::Immediate(_, d) => if live.contains(d) {
            live.remove(d)
        } else {
            live
        },
        SpecIR::VariableDeclaration(d, _) => if live.contains(d) {
            live.remove(d)
        } else {
            live
        },
        SpecIR::BinaryOperation(_, _, _, d) => live.remove(d).union(reads(x)),
        SpecIR::Variable(_) => live.union(reads(x)),
    }
}

/// Dead-code elimination of `s`, given the variables `live` after it, scanning from the end.
pub open spec fn dce_from(s: Seq<SpecIR>, live: Set<Seq<char>>) -> Seq<SpecIR>
    decreases s.len(),
{
    if s.len() == 0 {
        Seq::empty()
    } else {
        let x = s.last();
        let rest = dce_from(s.drop_last(), live_before(x, live));
        if dce_keeps(x, live) {
            rest.push(x)
        } else {
            rest
        }
    }
}

/// Dead-code elimination of a whole program: nothing is live after its end.
pub open spec fn eliminate_dead_code(s: Seq<SpecIR>) -> Seq<SpecIR> {
    dce_from(s, Set::empty())
}

/// The two passes in order: constant folding, then dead-code elimination.
pub open spec fn optimize_ir(s: Seq<SpecIR>) -> Result<Seq<SpecIR>, OptimizeError> {
    match fold_all(s) {
        Err(x) => Err(x),
        Ok(f) => Ok(eliminate_dead_code(f)),
    }
}

pub open spec fn opt_result_view(r: Result<Vec<IR>, OptimizeError>) -> Result<
    Seq<SpecIR>,
    OptimizeError,
> {
    match r {
        Ok(v) => Ok(irs_view(v@)),
        Err(x) => Err(x),
    }
}

/// A transformation of an IR sequence.
pub trait Optimization {
    spec fn transform(&self, ir: Seq<SpecIR>) -> Result<Seq<SpecIR>, OptimizeError>;

    fn apply(&self, ir: Vec<IR>) -> (r: Result<Vec<IR>, OptimizeError>)
        ensures
            opt_result_view(r) == self.transform(irs_view(ir@)),
    ;
}

/// Folds operations on constants into constants.
pub struct ConstantFolding;

/// Removes constants and declarations whose value is never read.
pub struct DeadCodeElimination;

fn fold_value_of(op: &String, a: i32, b: i32) -> (r: Result<i32, OptimizeError>)
    ensures
        r == fold_value(op@, a, b),
{
    match operator_of(op.as_str()) {
        None => Err(OptimizeError::UnknownOperator),
        Some(c) => {
            if c == '/' && b == 0 {
                Err(OptimizeError::DivideByZero)
            } else {
                match compute(c, a, b) {
                    Some(v) => Ok(v),
                    None => Err(OptimizeError::Overflow),
                }
            }
        },
    }
}

pub open spec fn node_result_view(r: Result<IR, OptimizeError>) -> Result<SpecIR, OptimizeError> {
    match r {
        Ok(n) => Ok(ir_view(&n)),
        Err(x) => Err(x),
    }
}

fn fold_constants(e: &IR) -> (r: Result<IR, OptimizeError>)
    ensures
        node_result_view(r) == fold_node(ir_view(e)),
    decreases e,
{
    match e {
        IR::BinaryOperation { operator, left, right, dest } => {
            let lf = match fold_constants(left) {
                Ok(x) => x,
                Err(x) => {
                    return Err(x);
                },
            };
            let rf = match fold_constants(right) {
                Ok(x) => x,
                Err(x) => {
                    return Err(x);
                },
            };
            let both = match (&lf, &rf) {
                (IR::Immediate { value: a, .. }, IR::Immediate { value: b, .. }) => Some((*a, *b)),
                _ => None,
            };
            match both {
                Some((a, b)) => match fold_value_of(operator, a, b) {
                    Ok(v) => Ok(IR::Immediate { value: v, dest: dest.clone() }),
                    Err(x) => Err(x),
                },
                None => Ok(
                    IR::BinaryOperation {
                        operator: operator.clone(),
                        left: Box::new(lf),
                        right: Box::new(rf),
                        dest: dest.clone(),
                    },
                ),
            }
        },
        _ => Ok(e.duplicate()),
    }
}

/// An error in a prefix of the nodes is the error of the whole.
pub proof fn lemma_fold_all_error(s: Seq<SpecIR>, k: int)
    requires
        0 <= k <= s.len(),
        fold_all(s.take(k)) is Err,
    ensures
        fold_all(s) == fold_all(s.take(k)),
    decreases s.len() - k,
{
    if k < s.len() {
        assert(s.take(k + 1).drop_last() =~= s.take(k));
        lemma_fold_all_error(s, k + 1);
    } else {
        assert(s.take(k) =~= s);
    }
}

impl Optimization for ConstantFolding {
    open spec fn transform(&self, ir: Seq<SpecIR>) -> Result<Seq<SpecIR>, OptimizeError> {
        fold_all(ir)
    }

    fn apply(&self, ir: Vec<IR>) -> (r: Result<Vec<IR>, OptimizeError>) {
        let ghost s = irs_view(ir@);
        let mut out: Vec<IR> = Vec::new();
        assert(s.take(0) =~= Seq::<SpecIR>::empty());
        assert(irs_view(out@) =~= Seq::<SpecIR>::empty());
        for i in 0..ir.len()
            invariant
                s == irs_view(ir@),
                fold_all(s.take(i as int)) == Ok::<Seq<SpecIR>, OptimizeError>(irs_view(out@)),
        {
            assert(s.take(i + 1).drop_last() =~= s.take(i as int));
            let f = match fold_constants(&ir[i]) {
                Ok(f) => f,
                Err(x) => {
                    proof {
                        lemma_fold_all_error(s, i + 1);
                    }
                    return Err(x);
                },
            };
            let ghost before = irs_view(out@);
            out.push(f);
            assert(irs_view(out@) =~= before.push(ir_view(&f)));
        }
        assert(s.take(ir.len() as int) =~= s);
        Ok(out)
    }
}

/// The names held in a list of strings.
pub open spec fn name_set(v: Seq<String>) -> Set<Seq<char>> {
    Set::new(|k: Seq<char>| exists|i: int| 0 <= i < v.len() && #[trigger] v[i]@ == k)
}

fn has_name(v: &Vec<String>, k: &String) -> (b: bool)
    ensures
        b == name_set(v@).contains(k@),
{
    for i in 0..v.len()
        invariant
            forall|j: int| 0 <= j < i ==> #[trigger] v@[j]@ != k@,
    {
        if v[i] == *k {
            assert(v@[i as int]@ == k@);
            return true;
        }
    }
    false
}

fn add_name(v: &mut Vec<String>, k: &String)
    ensures
        name_set(final(v)@) == name_set(old(v)@).insert(k@),
{
    let ghost before = v@;
    v.push(k.clone());
    assert forall|x: Seq<char>| name_set(v@).contains(x) implies #[trigger] name_set(
        before,
    ).insert(k@).contains(x) by {
        let i = choose|i: int| 0 <= i < v@.len() && #[trigger] v@[i]@ == x;
        if i < before.len() {
            assert(before[i]@ == x);
        }
    }
    assert forall|x: Seq<char>| #[trigger] name_set(before).insert(k@).contains(x) implies name_set(
        v@,
    ).contains(x) by {
        if x == k@ {
            assert(v@[before.len() as int]@ == x);
        } else {
            let i = choose|i: int| 0 <= i < before.len() && #[trigger] before[i]@ == x;
            assert(v@[i]@ == x);
        }
    }
    assert(name_set(v@) =~= name_set(before).insert(k@));
}

fn remove_name(v: &mut Vec<String>, k: &String)
    ensures
        name_set(final(v)@) == name_set(old(v)@).remove(k@),
{
    let mut out: Vec<String> = Vec::new();
    for i in 0..v.len()
        invariant
            forall|x: Seq<char>| #[trigger]
                name_set(out@).contains(x) <==> (x != k@ && exists|j: int|
                    0 <= j < i && #[trigger] v@[j]@ == x),
    {
        let ghost before = out@;
        if v[i] != *k {
            out.push(v[i].clone());
            assert forall|x: Seq<char>| #[trigger]
                name_set(out@).contains(x) <==> (x != k@ && exists|j: int|
                    0 <= j < i + 1 && #[trigger] v@[j]@ == x) by {
                if name_set(out@).contains(x) {
                    let j = choose|j: int| 0 <= j < out@.len() && #[trigger] out@[j]@ == x;
                    if j < before.len() {
                        assert(before[j]@ == x);
                        assert(name_set(before).contains(x));
                    } else {
                        assert(v@[i as int]@ == x);
                    }
                }
                if x != k@ && exists|j: int| 0 <= j < i + 1 && #[trigger] v@[j]@ == x {
                    let j = choose|j: int| 0 <= j < i + 1 && #[trigger] v@[j]@ == x;
                    if j < i {
                        assert(name_set(before).contains(x));
                        let m = choose|m: int| 0 <= m < before.len() && #[trigger] before[m]@ == x;
                        assert(out@[m]@ == x);
                    } else {
                        assert(out@[before.len() as int]@ == x);
                    }
                }
            }
        } else {
            assert forall|x: Seq<char>| #[trigger]
                name_set(out@).contains(x) <==> (x != k@ && exists|j: int|
                    0 <= j < i + 1 && #[trigger] v@[j]@ == x) by {
                if x != k@ && exists|j: int| 0 <= j < i + 1 && #[trigger] v@[j]@ == x {
                    let j = choose|j: int| 0 <= j < i + 1 && #[trigger] v@[j]@ == x;
                    assert(j < i);
                }
            }
        }
    }
    assert(name_set(out@) =~= name_set(v@).remove(k@));
    *v = out;
}

fn add_reads(v: &mut Vec<String>, e: &IR)
    ensures
        name_set(final(v)@) == name_set(old(v)@).union(reads(ir_view(e))),
    decreases e,
{
    match e {
        IR::Variable { name } => {
            add_name(v, name);
            assert(name_set(old(v)@).insert(name@) =~= name_set(old(v)@).union(set![name@]));
        },
        IR::BinaryOperation { left, right, .. } => {
            add_reads(v, left);
            add_reads(v, right);
            assert(name_set(v@) =~= name_set(old(v)@).union(reads(ir_view(e))));
        },
        _ => {
            assert(name_set(v@) =~= name_set(old(v)@).union(reads(ir_view(e))));
        },
    }
}

impl Optimization for DeadCodeElimination {
    open spec fn transform(&self, ir: Seq<SpecIR>) -> Result<Seq<SpecIR>, OptimizeError> {
        Ok(eliminate_dead_code(ir))
    }

    fn apply(&self, ir: Vec<IR>) -> (r: Result<Vec<IR>, OptimizeError>) {
        let ghost s = irs_view(ir@);
        let mut rest = ir;
        let mut live: Vec<String> = Vec::new();
        let mut kept: Vec<IR> = Vec::new();
        let ghost mut suffix: Seq<SpecIR> = Seq::empty();
        assert(name_set(live@) =~= Set::<Seq<char>>::empty());
        assert(dce_from(s, Set::empty()) =~= dce_from(s, Set::empty()) + suffix);
        while rest.len() > 0
            invariant
                dce_from(s, Set::empty()) == dce_from(irs_view(rest@), name_set(live@)) + suffix,
                kept@.len() == suffix.len(),
                forall|i: int|
                    0 <= i < kept@.len() ==> ir_view(&kept@[i]) == suffix[suffix.len() - 1 - i],
            decreases rest.len(),
        {
            let ghost before = irs_view(rest@);
            let ghost old_live = name_set(live@);
            let x = rest.pop().unwrap();
            assert(irs_view(rest@) =~= before.drop_last());
            assert(before.last() == ir_view(&x));
            let keep = match &x {
                IR::Print { var } => {
                    add_name(&mut live, var);
                    true
                },
                IR::Immediate { dest, .. } => {
                    if has_name(&live, dest) {
                        remove_name(&mut live, dest);
                        true
                    } else {
                        false
                    }
                },
                IR::VariableDeclaration { name, .. } => {
                    if has_name(&live, name) {
                        remove_name(&mut live, name);
                        true
                    } else {
                        false
                    }
                },
                IR::BinaryOperation { dest, .. } => {
                    remove_name(&mut live, dest);
                    add_reads(&mut live, &x);
                    true
                },
                IR::Variable { .. } => {
                    add_reads(&mut live, &x);
                    true
                },
            };
            if keep {
                proof {
                    assert(dce_from(before, old_live) == dce_from(irs_view(rest@), name_set(live@)).push(
                        ir_view(&x),
                    ));
                    assert(dce_from(irs_view(rest@), name_set(live@)).push(ir_view(&x)) + suffix
                        =~= dce_from(irs_view(rest@), name_set(live@)) + seq![ir_view(&x)].add(
                        suffix,
                    ));
                    suffix = seq![ir_view(&x)] + suffix;
                }
                kept.push(x);
            } else {
                assert(dce_from(before, old_live) == dce_from(irs_view(rest@), name_set(live@)));
            }
        }
        assert(dce_from(irs_view(rest@), name_set(live@)) =~= Seq::<SpecIR>::empty());
        assert(dce_from(s, Set::empty()) =~= suffix);
        let mut out: Vec<IR> = Vec::new();
        while kept.len() > 0
            invariant
                kept@.len() + out@.len() == suffix.len(),
                forall|i: int|
                    0 <= i < kept@.len() ==> ir_view(&kept@[i]) == suffix[suffix.len() - 1 - i],
                irs_view(out@) == suffix.take(out@.len() as int),
            decreases kept.len(),
        {
            let x = kept.pop().unwrap();
            out.push(x);
            assert(irs_view(out@) =~= suffix.take(out@.len() as int));
        }
        assert(suffix.take(suffix.len() as int) =~= suffix);
        Ok(out)
    }
}

/// Applies constant folding, then dead-code elimination.
pub struct Optimizer {
    constant_folding: ConstantFolding,
    dead_code_elimination: DeadCodeElimination,
}

impl Optimizer {
    pub fn new() -> Optimizer {
        Optimizer { constant_folding: ConstantFolding, dead_code_elimination: DeadCodeElimination }
    }

    /// Runs the passes in order; the first error is returned unchanged.
    pub fn optimize(&self, ir: Vec<IR>) -> (r: Result<Vec<IR>, OptimizeError>)
        ensures
            opt_result_view(r) == optimize_ir(irs_view(ir@)),
    {
        let folded = match self.constant_folding.apply(ir) {
            Ok(v) => v,
            Err(x) => {
                return Err(x);
            },
        };
        self.dead_code_elimination.apply(folded)
    }
}

/// Every node of `s` is left as it is by constant folding.
pub open spec fn all_folded(s: Seq<SpecIR>) -> bool {
    forall|i: int| 0 <= i < s.len() ==> fold_node(#[trigger] s[i]) == Ok::<SpecIR, OptimizeError>(s[i])
}

/// What constant folding makes of a node, it leaves as it is.
pub proof fn lemma_fold_node_fixed(e: SpecIR)
    requires
        fold_node(e) is Ok,
    ensures
        fold_node(fold_node(e)->Ok_0) == fold_node(e),
    decreases e,
{
    match e {
        SpecIR::BinaryOperation(op, l, r, d) => {
            lemma_fold_node_fixed(*l);
            lemma_fold_node_fixed(*r);
        },
        _ => {},
    }
}

pub proof fn lemma_fold_all_folded(s: Seq<SpecIR>)
    requires
        fold_all(s) is Ok,
    ensures
        all_folded(fold_all(s)->Ok_0),
    decreases s.len(),
{
    if s.len() > 0 {
        lemma_fold_all_folded(s.drop_last());
        lemma_fold_node_fixed(s.last());
    }
}

pub proof fn lemma_fold_all_fixed(s: Seq<SpecIR>)
    requires
        all_folded(s),
    ensures
        fold_all(s) == Ok::<Seq<SpecIR>, OptimizeError>(s),
    decreases s.len(),
{
    if s.len() > 0 {
        assert(all_folded(s.drop_last())) by {
            assert forall|i: int| 0 <= i < s.drop_last().len() implies fold_node(
                #[trigger] s.drop_last()[i],
            ) == Ok::<SpecIR, OptimizeError>(s.drop_last()[i]) by {
                assert(s.drop_last()[i] == s[i]);
            }
        }
        lemma_fold_all_fixed(s.drop_last());
        assert(fold_node(s[s.len() - 1]) == Ok::<SpecIR, OptimizeError>(s[s.len() - 1]));
        assert(s.drop_last().push(s.last()) =~= s);
    } else {
        assert(s =~= Seq::<SpecIR>::empty());
    }
}

pub proof fn lemma_all_folded_push(s: Seq<SpecIR>, x: SpecIR)
    requires
        all_folded(s),
        fold_node(x) == Ok::<SpecIR, OptimizeError>(x),
    ensures
        all_folded(s.push(x)),
{
    assert forall|i: int| 0 <= i < s.push(x).len() implies fold_node(#[trigger] s.push(x)[i])
        == Ok::<SpecIR, OptimizeError>(s.push(x)[i]) by {
        if i < s.len() {
            assert(s.push(x)[i] == s[i]);
        }
    }
}

/// Dead-code elimination keeps only nodes of its input.
pub proof fn lemma_dce_folded(s: Seq<SpecIR>, live: Set<Seq<char>>)
    requires
        all_folded(s),
    ensures
        all_folded(dce_from(s, live)),
    decreases s.len(),
{
    if s.len() > 0 {
        let front = s.drop_last();
        assert(all_folded(front)) by {
            assert forall|i: int| 0 <= i < front.len() implies fold_node(#[trigger] front[i])
                == Ok::<SpecIR, OptimizeError>(front[i]) by {
                assert(front[i] == s[i]);
            }
        }
        let x = s.last();
        assert(fold_node(s[s.len() - 1]) == Ok::<SpecIR, OptimizeError>(s[s.len() - 1]));
        lemma_dce_folded(front, live_before(x, live));
        lemma_all_folded_push(dce_from(front, live_before(x, live)), x);
    }
}

/// Dead-code elimination applied twice with the same live set is applied once.
pub proof fn lemma_dce_idempotent(s: Seq<SpecIR>, live: Set<Seq<char>>)
    ensures
        dce_from(dce_from(s, live), live) == dce_from(s, live),
    decreases s.len(),
{
    if s.len() > 0 {
        let x = s.last();
        let l2 = live_before(x, live);
        lemma_dce_idempotent(s.drop_last(), l2);
        let rest = dce_from(s.drop_last(), l2);
        assert(rest.push(x).drop_last() =~= rest);
    }
}

/// Optimizing a program that the optimizer produced changes nothing: the passes reach their
/// fixed point in one run.
pub proof fn law_optimize_idempotent(s: Seq<SpecIR>)
    requires
        optimize_ir(s) is Ok,
    ensures
        optimize_ir(optimize_ir(s)->Ok_0) == optimize_ir(s),
{
    let f = fold_all(s)->Ok_0;
    lemma_fold_all_folded(s);
    lemma_dce_folded(f, Set::empty());
    let o = eliminate_dead_code(f);
    lemma_fold_all_fixed(o);
    lemma_dce_idempotent(f, Set::empty());
}

/// The prints of a sequence of IR nodes, in order.
pub open spec fn prints(s: Seq<SpecIR>) -> Seq<SpecIR>
    decreases s.len(),
{
    if s.len() == 0 {
        Seq::empty()
    } else if s.last() is Print {
        prints(s.drop_last()).push(s.last())
    } else {
        prints(s.drop_last())
    }
}

/// Dead-code elimination keeps every print, in order, whatever is live after the sequence.
pub proof fn law_dead_code_keeps_prints(s: Seq<SpecIR>, live: Set<Seq<char>>)
    ensures
        prints(dce_from(s, live)) == prints(s),
    decreases s.len(),
{
    if s.len() > 0 {
        let x = s.last();
        let l2 = live_before(x, live);
        law_dead_code_keeps_prints(s.drop_last(), l2);
        let rest = dce_from(s.drop_last(), l2);
        assert(rest.push(x).drop_last() =~= rest);
    }
}

/// Folding a sequence folds each of its nodes in place.
pub proof fn lemma_fold_all_index(s: Seq<SpecIR>, i: int)
    requires
        fold_all(s) is Ok,
        0 <= i < s.len(),
    ensures
        fold_all(s)->Ok_0.len() == s.len(),
        fold_node(s[i]) is Ok,
        fold_all(s)->Ok_0[i] == fold_node(s[i])->Ok_0,
    decreases s.len(),
{
    lemma_fold_all_length(s);
    if i < s.len() - 1 {
        lemma_fold_all_index(s.drop_last(), i);
    }
}

pub proof fn lemma_fold_all_length(s: Seq<SpecIR>)
    requires
        fold_all(s) is Ok,
    ensures
        fold_all(s)->Ok_0.len() == s.len(),
    decreases s.len(),
{
    if s.len() > 0 {
        lemma_fold_all_length(s.drop_last());
    }
}

/// Where constant folding succeeds, an operation on two constants whose exact value `v` fits
/// in an `i32` (division rounding toward zero, by a non-zero divisor) becomes the constant `v`
/// with the operation's destination, in the same place.
pub proof fn law_fold_constant_operation(
    s: Seq<SpecIR>,
    i: int,
    op: char,
    a: i32,
    ta: Seq<char>,
    b: i32,
    tb: Seq<char>,
    d: Seq<char>,
)
    requires
        fold_all(s) is Ok,
        0 <= i < s.len(),
        s[i] == SpecIR::BinaryOperation(
            seq![op],
            Box::new(SpecIR::Immediate(a, ta)),
            Box::new(SpecIR::Immediate(b, tb)),
            d,
        ),
        is_arith_op(op),
        op == '/' ==> b != 0,
        in_i32(op_value(op, a as int, b as int)),
    ensures
        fold_all(s)->Ok_0[i] == SpecIR::Immediate(op_value(op, a as int, b as int) as i32, d),
{
    lemma_fold_all_index(s, i);
    assert(fold_node(SpecIR::Immediate(a, ta)) == Ok::<SpecIR, OptimizeError>(
        SpecIR::Immediate(a, ta),
    ));
    assert(fold_node(SpecIR::Immediate(b, tb)) == Ok::<SpecIR, OptimizeError>(
        SpecIR::Immediate(b, tb),
    ));
    assert(operator_char(seq![op]) == Some(op));
}

} // verus!
