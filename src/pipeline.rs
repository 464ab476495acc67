use crate::arith::{in_i32, is_arith_op, op_value, operator_char};
use crate::codegen::{
    arith_instr, gen_all, gen_node, gen_operand, temp_name, to_runtime, CodeGenerator,
    CodegenError,
};
use crate::decimal::{decimal, digit_char};
use crate::ir::{
    lower_operand, lower_program, lower_statement, lower_statements, placeholder, IRGenerator,
    LowerError, SpecIR,
};
use crate::lexer::{
    digits_value, is_digit, is_letter, lemma_lex_step, lemma_scan_literal, lemma_scan_space,
    lemma_scan_word, let_word, lex, lex_from, prepend_tokens, scan, LexError, Lexer, SpecToken,
    TokenType,
};
use crate::optimizer::{
    dce_from, eliminate_dead_code, fold_all, fold_node, fold_value, optimize_ir, OptimizeError,
    Optimizer,
};
use crate::parser::{
    climb, expression_at, parse_source, precedence, primary_at, statement_at, statements_from,
    ParseError, Parser, SpecAst, SpecAstType,
};
use crate::runtime::{
    arith_step, instrs_view, print_line, run_from, run_program, step, Instruction, Outcome,
    SpecInstr, SpecRuntimeError,
};
use vstd::prelude::*;

verus! {

/// The stage that stopped a compilation, with its error.
#[derive(Debug, Clone, Copy, PartialEq, Eq, Structural)]
pub enum CompileError {
    Parse(ParseError),
    Lower(LowerError),
    Optimize(OptimizeError),
    Codegen(CodegenError),
}

/// The IR of a source text.
pub open spec fn lower_source(s: Seq<char>) -> Result<Seq<SpecIR>, CompileError> {
    match parse_source(s) {
        Err(e) => Err(CompileError::Parse(e)),
        Ok(ast) => match lower_program(ast) {
            Err(e) => Err(CompileError::Lower(e)),
            Ok(ir) => Ok(ir),
        },
    }
}

/// The instructions of a source text, optimized or not, with temporaries counted from zero.
pub open spec fn compile_source(s: Seq<char>, optimize: bool) -> Result<Seq<SpecInstr>, CompileError> {
    match lower_source(s) {
        Err(e) => Err(e),
        Ok(ir) => {
            let opt = if optimize {
                optimize_ir(ir)
            } else {
                Ok(ir)
            };
            match opt {
                Err(e) => Err(CompileError::Optimize(e)),
                Ok(o) => match gen_all(o, 0) {
                    Err(e) => Err(CompileError::Codegen(e)),
                    Ok((code, _)) => Ok(code),
                },
            }
        },
    }
}

/// Runs every stage from source text to runtime instructions; the first stage that fails
/// stops the rest.
pub fn compile(source: &str, optimize: bool) -> (r: Result<Vec<Instruction>, CompileError>)
    ensures
        compile_source(source@, optimize) == match r {
            Ok(v) => Ok(instrs_view(v@)),
            Err(e) => Err::<Seq<SpecInstr>, CompileError>(e),
        },
{
    let lexer = Lexer::new(source);
    let mut parser = Parser::new(lexer);
    let ast = match parser.parse() {
        Ok(a) => a,
        Err(e) => {
            return Err(CompileError::Parse(e));
        },
    };
    let mut ir_generator = IRGenerator::new();
    let ir = match ir_generator.generate(&ast) {
        Ok(v) => v,
        Err(e) => {
            return Err(CompileError::Lower(e));
        },
    };
    let ir = if optimize {
        match Optimizer::new().optimize(ir) {
            Ok(v) => v,
            Err(e) => {
                return Err(CompileError::Optimize(e));
            },
        }
    } else {
        ir
    };
    let mut code_generator = CodeGenerator::new();
    match code_generator.generate(&ir) {
        Ok(code) => Ok(to_runtime(&code)),
        Err(e) => Err(CompileError::Codegen(e)),
    }
}

/// A name that the lexer reads as one identifier: a non-empty run of letters other than `let`.
pub open spec fn is_name(id: Seq<char>) -> bool {
    &&& id.len() > 0
    &&& forall|i: int| 0 <= i < id.len() ==> is_letter(#[trigger] id[i])
    &&& id != let_word()
}

/// The source text `let <id> = <value>;`.
pub open spec fn declaration_text(id: Seq<char>, value: Seq<char>) -> Seq<char> {
    let_word() + seq![' '] + id + seq![' ', '=', ' '] + value + seq![';']
}

pub open spec fn token(kind: TokenType, text: Seq<char>) -> SpecToken {
    SpecToken { kind, text }
}

pub proof fn lemma_digit_char(d: nat)
    requires
        d < 10,
    ensures
        is_digit(digit_char(d)),
        digit_char(d) as int - '0' as int == d,
{
    if d == 0 {
        assert(digit_char(d) == '0');
    } else if d == 1 {
        assert(digit_char(d) == '1');
    } else if d == 2 {
        assert(digit_char(d) == '2');
    } else if d == 3 {
        assert(digit_char(d) == '3');
    } else if d == 4 {
        assert(digit_char(d) == '4');
    } else if d == 5 {
        assert(digit_char(d) == '5');
    } else if d == 6 {
        assert(digit_char(d) == '6');
    } else if d == 7 {
        assert(digit_char(d) == '7');
    } else if d == 8 {
        assert(digit_char(d) == '8');
    } else {
        assert(digit_char(d) == '9');
    }
}

/// The decimal text of `n` is a run of digits worth `n`.
pub proof fn lemma_decimal_digits(n: nat)
    ensures
        decimal(n).len() > 0,
        forall|i: int| 0 <= i < decimal(n).len() ==> is_digit(#[trigger] decimal(n)[i]),
        digits_value(decimal(n)) == n,
    decreases n,
{
    lemma_digit_char(n % 10);
    if n >= 10 {
        lemma_decimal_digits(n / 10);
        let front = decimal(n / 10);
        assert((front + seq![digit_char(n % 10)]).drop_last() =~= front);
        assert((front + seq![digit_char(n % 10)]).last() == digit_char(n % 10));
        assert((n / 10) * 10 + n % 10 == n) by (nonlinear_arith);
        let whole = front + seq![digit_char(n % 10)];
        assert(decimal(n) == whole);
        assert(digits_value(whole) == digits_value(front) * 10 + (digit_char(n % 10) as int
            - '0' as int));
    } else {
        let whole = seq![digit_char(n)];
        assert(whole.drop_last() =~= Seq::<char>::empty());
        assert(decimal(n) == whole);
        assert(digits_value(whole) == digits_value(whole.drop_last()) * 10 + (whole.last() as int
            - '0' as int));
        assert(n % 10 == n);
    }
}

/// Where the parts of `let <id> = <value>;` stand in a text that starts with it.
pub proof fn lemma_declaration_layout(s: Seq<char>, id: Seq<char>, value: Seq<char>)
    requires
        declaration_text(id, value).len() <= s.len(),
        s.subrange(0, declaration_text(id, value).len() as int) == declaration_text(id, value),
    ensures
        ({
            let k = id.len() as int;
            let m = value.len() as int;
            &&& declaration_text(id, value).len() == 8 + k + m
            &&& s.subrange(0, 3) == let_word()
            &&& s[3] == ' '
            &&& s.subrange(4, 4 + k) == id
            &&& s[4 + k] == ' '
            &&& s[5 + k] == '='
            &&& s[6 + k] == ' '
            &&& s.subrange(7 + k, 7 + k + m) == value
            &&& s[7 + k + m] == ';'
        }),
{
    let d = declaration_text(id, value);
    let k = id.len() as int;
    let m = value.len() as int;
    assert forall|i: int| 0 <= i < d.len() implies s[i] == #[trigger] d[i] by {
        assert(s.subrange(0, d.len() as int)[i] == s[i]);
    }
    assert(d[3] == ' ');
    assert(d[4 + k] == ' ');
    assert(d[5 + k] == '=');
    assert(d[6 + k] == ' ');
    assert(d[7 + k + m] == ';');
    assert(s.subrange(0, 3) =~= let_word()) by {
        assert forall|i: int| 0 <= i < 3 implies s.subrange(0, 3)[i] == let_word()[i] by {
            assert(d[i] == let_word()[i]);
        }
    }
    assert(s.subrange(4, 4 + k) =~= id) by {
        assert forall|i: int| 0 <= i < k implies s.subrange(4, 4 + k)[i] == id[i] by {
            assert(d[4 + i] == id[i]);
        }
    }
    assert(s.subrange(7 + k, 7 + k + m) =~= value) by {
        assert forall|i: int| 0 <= i < m implies s.subrange(7 + k, 7 + k + m)[i] == value[i] by {
            assert(d[7 + k + i] == value[i]);
        }
    }
}

/// Tokens in front of tokens in front of `r` are the two lists in front of `r`.
pub proof fn lemma_prepend_twice(x: Seq<SpecToken>, y: Seq<SpecToken>, r: Result<Seq<SpecToken>, LexError>)
    ensures
        prepend_tokens(x, prepend_tokens(y, r)) == prepend_tokens(x + y, r),
{
    match r {
        Ok(rest) => {
            assert(x + (y + rest) =~= x + y + rest);
        },
        Err(_) => {},
    }
}

/// At the end of the text only the end-of-input token remains.
pub proof fn lemma_lex_end(s: Seq<char>)
    ensures
        lex_from(s, s.len() as int) == Ok::<Seq<SpecToken>, LexError>(
            seq![token(TokenType::Eof, Seq::empty())],
        ),
{
}

/// The first three tokens of a text that starts with `let <id> = <value>;`.
pub proof fn lemma_lex_declaration_head(s: Seq<char>, id: Seq<char>, value: Seq<char>)
    requires
        is_name(id),
        declaration_text(id, value).len() <= s.len(),
        s.subrange(0, declaration_text(id, value).len() as int) == declaration_text(id, value),
    ensures
        lex(s) == prepend_tokens(
            seq![
                token(TokenType::Keyword, let_word()),
                token(TokenType::Identifier, id),
                token(TokenType::Operator, seq!['=']),
            ],
            lex_from(s, 6 + id.len() as int),
        ),
{
    let k = id.len() as int;
    lemma_declaration_layout(s, id, value);
    assert forall|i: int| 0 <= i < 3 implies is_letter(#[trigger] s[i]) by {
        assert(s[i] == s.subrange(0, 3)[i]);
    }
    lemma_scan_word(s, 0, 3);
    lemma_lex_step(s, 0);
    lemma_scan_space(s, 3);
    assert forall|i: int| 4 <= i < 4 + k implies is_letter(#[trigger] s[i]) by {
        assert(s[i] == s.subrange(4, 4 + k)[i - 4]);
    }
    lemma_scan_word(s, 4, 4 + k);
    lemma_lex_step(s, 3);
    lemma_scan_space(s, 4 + k);
    assert(scan(s, 5 + k) == (
        Ok::<SpecToken, LexError>(token(TokenType::Operator, seq!['='])),
        6 + k,
    ));
    lemma_lex_step(s, 4 + k);
    lemma_prepend_twice(
        seq![token(TokenType::Identifier, id)],
        seq![token(TokenType::Operator, seq!['='])],
        lex_from(s, 6 + k),
    );
    lemma_prepend_twice(
        seq![token(TokenType::Keyword, let_word())],
        seq![token(TokenType::Identifier, id)] + seq![token(TokenType::Operator, seq!['='])],
        lex_from(s, 6 + k),
    );
    assert(seq![token(TokenType::Keyword, let_word())] + (seq![token(TokenType::Identifier, id)]
        + seq![token(TokenType::Operator, seq!['='])]) =~= seq![
        token(TokenType::Keyword, let_word()),
        token(TokenType::Identifier, id),
        token(TokenType::Operator, seq!['=']),
    ]);
}

/// The tokens of ` <digits>;` standing at position `p`.
pub proof fn lemma_lex_literal_tail(s: Seq<char>, p: int, n: nat)
    requires
        0 <= p,
        n <= i32::MAX,
        p + decimal(n).len() + 2 <= s.len(),
        s[p] == ' ',
        s.subrange(p + 1, p + 1 + decimal(n).len()) == decimal(n),
        s[p + 1 + decimal(n).len()] == ';',
    ensures
        lex_from(s, p) == prepend_tokens(
            seq![
                token(TokenType::Literal, decimal(n)),
                token(TokenType::Punctuation, seq![';']),
            ],
            lex_from(s, p + decimal(n).len() + 2),
        ),
{
    let m = decimal(n).len() as int;
    lemma_decimal_digits(n);
    assert forall|i: int| p + 1 <= i < p + 1 + m implies is_digit(#[trigger] s[i]) by {
        assert(s[i] == s.subrange(p + 1, p + 1 + m)[i - (p + 1)]);
    }
    lemma_scan_space(s, p);
    lemma_scan_literal(s, p + 1, p + 1 + m);
    lemma_lex_step(s, p);
    lemma_lex_step(s, p + 1 + m);
    lemma_prepend_twice(
        seq![token(TokenType::Literal, decimal(n))],
        seq![token(TokenType::Punctuation, seq![';'])],
        lex_from(s, p + 2 + m),
    );
    assert(seq![token(TokenType::Literal, decimal(n))] + seq![
        token(TokenType::Punctuation, seq![';']),
    ] =~= seq![token(TokenType::Literal, decimal(n)), token(TokenType::Punctuation, seq![';'])]);
}

/// `let <id> = <n>;` parses to the declaration of `<id>` with the number `n`.
pub proof fn lemma_parse_literal_declaration(id: Seq<char>, n: nat)
    requires
        is_name(id),
        n <= i32::MAX,
    ensures
        parse_source(declaration_text(id, decimal(n))) == Ok::<SpecAst, ParseError>(
            SpecAst::Program(seq![SpecAst::VariableDeclaration(id, Box::new(SpecAst::Number(n as i32)))]),
        ),
{
    let s = declaration_text(id, decimal(n));
    let k = id.len() as int;
    let m = decimal(n).len() as int;
    assert(s.subrange(0, s.len() as int) =~= s);
    lemma_declaration_layout(s, id, decimal(n));
    lemma_lex_declaration_head(s, id, decimal(n));
    lemma_lex_literal_tail(s, 6 + k, n);
    lemma_lex_end(s);
    lemma_prepend_twice(
        seq![
            token(TokenType::Keyword, let_word()),
            token(TokenType::Identifier, id),
            token(TokenType::Operator, seq!['=']),
        ],
        seq![token(TokenType::Literal, decimal(n)), token(TokenType::Punctuation, seq![';'])],
        lex_from(s, s.len() as int),
    );
    let t = seq![
        token(TokenType::Keyword, let_word()),
        token(TokenType::Identifier, id),
        token(TokenType::Operator, seq!['=']),
        token(TokenType::Literal, decimal(n)),
        token(TokenType::Punctuation, seq![';']),
        token(TokenType::Eof, Seq::empty()),
    ];
    assert(lex(s) == Ok::<Seq<SpecToken>, LexError>(t)) by {
        assert(seq![
            token(TokenType::Keyword, let_word()),
            token(TokenType::Identifier, id),
            token(TokenType::Operator, seq!['=']),
        ] + seq![
            token(TokenType::Literal, decimal(n)),
            token(TokenType::Punctuation, seq![';']),
        ] + seq![token(TokenType::Eof, Seq::empty())] =~= t);
    }
    lemma_decimal_digits(n);
    let value = SpecAst::Number(n as i32);
    assert(primary_at(t, 3) == Ok::<(SpecAst, int), ParseError>((value, 4)));
    assert(climb(t, 4, value, 1) == Ok::<(SpecAst, int), ParseError>((value, 4)));
    assert(expression_at(t, 3) == Ok::<(SpecAst, int), ParseError>((value, 4)));
    let decl = SpecAst::VariableDeclaration(id, Box::new(value));
    assert(statement_at(t, 0) == Ok::<(SpecAst, int), ParseError>((decl, 5)));
    assert(statements_from(t, 5) == Ok::<Seq<SpecAst>, ParseError>(Seq::empty()));
    assert(statements_from(t, 0) == Ok::<Seq<SpecAst>, ParseError>(seq![decl])) by {
        assert(seq![decl] + Seq::<SpecAst>::empty() =~= seq![decl]);
    }
}

/// Compiling `let <id> = <n>;` without optimization and running it leaves exactly `<id>`
/// holding the literal's value, with nothing printed and no error.
pub proof fn law_declaration_round_trip(id: Seq<char>, n: nat)
    requires
        is_name(id),
        n <= i32::MAX,
    ensures
        compile_source(declaration_text(id, decimal(n)), false) == Ok::<
            Seq<SpecInstr>,
            CompileError,
        >(seq![SpecInstr::LoadImmediate(id, n as i32)]),
        run_program(seq![SpecInstr::LoadImmediate(id, n as i32)]).error is None,
        run_program(seq![SpecInstr::LoadImmediate(id, n as i32)]).store == Map::<
            Seq<char>,
            i32,
        >::empty().insert(id, n as i32),
{
    lemma_parse_literal_declaration(id, n);
    let decl = SpecAst::VariableDeclaration(id, Box::new(SpecAst::Number(n as i32)));
    let x = SpecIR::VariableDeclaration(id, n as i32);
    assert(seq![decl].drop_last() =~= Seq::<SpecAst>::empty());
    assert(seq![decl].last() == decl);
    assert(lower_statements(seq![decl]) == Ok::<Seq<SpecIR>, LowerError>(seq![x])) by {
        assert(lower_statements(seq![decl].drop_last()) == Ok::<Seq<SpecIR>, LowerError>(
            Seq::empty(),
        ));
        assert(lower_statement(decl) == Ok::<SpecIR, LowerError>(x));
        assert(Seq::<SpecIR>::empty().push(x) =~= seq![x]);
    }
    let ir = seq![x];
    assert(ir.drop_last() =~= Seq::<SpecIR>::empty());
    assert(ir.last() == x);
    let code = seq![SpecInstr::LoadImmediate(id, n as i32)];
    assert(gen_all(ir, 0) == Ok::<(Seq<SpecInstr>, nat), CodegenError>((code, 0))) by {
        assert(gen_all(ir.drop_last(), 0) == Ok::<(Seq<SpecInstr>, nat), CodegenError>(
            (Seq::empty(), 0),
        ));
        assert(gen_node(x, 0) == Ok::<(Seq<SpecInstr>, nat), CodegenError>((code, 0)));
        assert(Seq::<SpecInstr>::empty() + code =~= code);
    }
    assert(code.drop_first() =~= Seq::<SpecInstr>::empty());
    let st = Map::<Seq<char>, i32>::empty().insert(id, n as i32);
    assert(step(Map::empty(), Seq::empty(), code[0]) == Ok::<
        (Map<Seq<char>, i32>, Seq<Seq<char>>),
        SpecRuntimeError,
    >((st, Seq::empty())));
    assert(run_from(code.drop_first(), st, Seq::empty()) == Outcome {
        store: st,
        output: Seq::empty(),
        error: None,
    });
}

/// The source text of an operation on two literals: `<a> <op> <b>`.
pub open spec fn operation_text(a: nat, op: char, b: nat) -> Seq<char> {
    decimal(a) + seq![' ', op, ' '] + decimal(b)
}

/// The tokens of ` <a> <op> <b>;` standing at position `p`.
pub proof fn lemma_lex_operation_tail(s: Seq<char>, p: int, a: nat, op: char, b: nat)
    requires
        0 <= p,
        a <= i32::MAX,
        b <= i32::MAX,
        is_arith_op(op),
        p + operation_text(a, op, b).len() + 2 <= s.len(),
        s[p] == ' ',
        s.subrange(p + 1, p + 1 + operation_text(a, op, b).len()) == operation_text(a, op, b),
        s[p + 1 + operation_text(a, op, b).len()] == ';',
    ensures
        lex_from(s, p) == prepend_tokens(
            seq![
                token(TokenType::Literal, decimal(a)),
                token(TokenType::Operator, seq![op]),
                token(TokenType::Literal, decimal(b)),
                token(TokenType::Punctuation, seq![';']),
            ],
            lex_from(s, p + operation_text(a, op, b).len() + 2),
        ),
{
    let ma = decimal(a).len() as int;
    let mb = decimal(b).len() as int;
    let v = operation_text(a, op, b);
    lemma_decimal_digits(a);
    assert(v.len() == ma + 3 + mb);
    assert forall|i: int| 0 <= i < v.len() implies s[p + 1 + i] == #[trigger] v[i] by {
        assert(s.subrange(p + 1, p + 1 + v.len())[i] == s[p + 1 + i]);
    }
    assert forall|i: int| p + 1 <= i < p + 1 + ma implies is_digit(#[trigger] s[i]) by {
        assert(v[i - (p + 1)] == decimal(a)[i - (p + 1)]);
    }
    assert(s[p + 1 + ma] == v[ma]);
    assert(s.subrange(p + 1, p + 1 + ma) =~= decimal(a));
    lemma_scan_space(s, p);
    lemma_scan_literal(s, p + 1, p + 1 + ma);
    lemma_lex_step(s, p);
    assert(s[p + 2 + ma] == v[ma + 1]);
    assert(s[p + 3 + ma] == v[ma + 2]);
    lemma_scan_space(s, p + 1 + ma);
    assert(scan(s, p + 2 + ma) == (
        Ok::<SpecToken, LexError>(token(TokenType::Operator, seq![op])),
        p + 3 + ma,
    ));
    lemma_lex_step(s, p + 1 + ma);
    assert(s.subrange(p + 4 + ma, p + 4 + ma + mb) =~= decimal(b)) by {
        assert forall|i: int| 0 <= i < mb implies s.subrange(p + 4 + ma, p + 4 + ma + mb)[i]
            == decimal(b)[i] by {
            assert(v[ma + 3 + i] == decimal(b)[i]);
            assert(s[p + 1 + (ma + 3 + i)] == v[ma + 3 + i]);
        }
    }
    lemma_lex_literal_tail(s, p + 3 + ma, b);
    let rest = lex_from(s, p + 5 + ma + mb);
    let lit_b = seq![token(TokenType::Literal, decimal(b)), token(TokenType::Punctuation, seq![';'])];
    lemma_prepend_twice(seq![token(TokenType::Operator, seq![op])], lit_b, rest);
    lemma_prepend_twice(
        seq![token(TokenType::Literal, decimal(a))],
        seq![token(TokenType::Operator, seq![op])] + lit_b,
        rest,
    );
    assert(seq![token(TokenType::Literal, decimal(a))] + (seq![token(TokenType::Operator, seq![op])]
        + lit_b) =~= seq![
        token(TokenType::Literal, decimal(a)),
        token(TokenType::Operator, seq![op]),
        token(TokenType::Literal, decimal(b)),
        token(TokenType::Punctuation, seq![';']),
    ]);
}

/// The syntax tree of `<a> <op> <b>`.
pub open spec fn operation_ast(a: nat, op: char, b: nat) -> SpecAst {
    SpecAst::BinaryOperation(
        Box::new(SpecAst::Number(a as i32)),
        seq![op],
        Box::new(SpecAst::Number(b as i32)),
    )
}

/// The tokens of `let <id> = <a> <op> <b>;`.
pub open spec fn operation_tokens(id: Seq<char>, a: nat, op: char, b: nat) -> Seq<SpecToken> {
    seq![
        token(TokenType::Keyword, let_word()),
        token(TokenType::Identifier, id),
        token(TokenType::Operator, seq!['=']),
        token(TokenType::Literal, decimal(a)),
        token(TokenType::Operator, seq![op]),
        token(TokenType::Literal, decimal(b)),
        token(TokenType::Punctuation, seq![';']),
    ]
}

/// A text that starts with `let <id> = <a> <op> <b>;` starts with its tokens.
pub proof fn lemma_lex_operation_declaration(s: Seq<char>, id: Seq<char>, a: nat, op: char, b: nat)
    requires
        is_name(id),
        a <= i32::MAX,
        b <= i32::MAX,
        is_arith_op(op),
        declaration_text(id, operation_text(a, op, b)).len() <= s.len(),
        s.subrange(0, declaration_text(id, operation_text(a, op, b)).len() as int)
            == declaration_text(id, operation_text(a, op, b)),
    ensures
        lex(s) == prepend_tokens(
            operation_tokens(id, a, op, b),
            lex_from(s, declaration_text(id, operation_text(a, op, b)).len() as int),
        ),
{
    let v = operation_text(a, op, b);
    let k = id.len() as int;
    lemma_declaration_layout(s, id, v);
    lemma_lex_declaration_head(s, id, v);
    lemma_lex_operation_tail(s, 6 + k, a, op, b);
    let head = seq![
        token(TokenType::Keyword, let_word()),
        token(TokenType::Identifier, id),
        token(TokenType::Operator, seq!['=']),
    ];
    let tail = seq![
        token(TokenType::Literal, decimal(a)),
        token(TokenType::Operator, seq![op]),
        token(TokenType::Literal, decimal(b)),
        token(TokenType::Punctuation, seq![';']),
    ];
    lemma_prepend_twice(head, tail, lex_from(s, 8 + k + v.len()));
    assert(head + tail =~= operation_tokens(id, a, op, b));
}

/// In tokens that start with those of `let <id> = <a> <op> <b>;`, the first statement is that
/// declaration.
pub proof fn lemma_parse_operation_statement(t: Seq<SpecToken>, id: Seq<char>, a: nat, op: char, b: nat)
    requires
        is_name(id),
        a <= i32::MAX,
        b <= i32::MAX,
        is_arith_op(op),
        t.len() >= 8,
        t.subrange(0, 7) == operation_tokens(id, a, op, b),
    ensures
        statement_at(t, 0) == Ok::<(SpecAst, int), ParseError>(
            (SpecAst::VariableDeclaration(id, Box::new(operation_ast(a, op, b))), 7),
        ),
{
    let o = operation_tokens(id, a, op, b);
    assert forall|i: int| 0 <= i < 7 implies t[i] == #[trigger] o[i] by {
        assert(t.subrange(0, 7)[i] == t[i]);
    }
    lemma_decimal_digits(a);
    lemma_decimal_digits(b);
    let na = SpecAst::Number(a as i32);
    let nb = SpecAst::Number(b as i32);
    assert(t[0] == o[0] && t[1] == o[1] && t[2] == o[2] && t[3] == o[3]);
    assert(t[4] == o[4] && t[5] == o[5] && t[6] == o[6]);
    let p = precedence(t[4]);
    assert(p >= 2);
    assert(primary_at(t, 3) == Ok::<(SpecAst, int), ParseError>((na, 4)));
    assert(primary_at(t, 5) == Ok::<(SpecAst, int), ParseError>((nb, 6)));
    assert(climb(t, 6, nb, p + 1) == Ok::<(SpecAst, int), ParseError>((nb, 6)));
    let e = operation_ast(a, op, b);
    assert(climb(t, 6, e, 1) == Ok::<(SpecAst, int), ParseError>((e, 6)));
    assert(climb(t, 4, na, 1) == Ok::<(SpecAst, int), ParseError>((e, 6)));
    assert(expression_at(t, 3) == Ok::<(SpecAst, int), ParseError>((e, 6)));
}

/// `let <id> = <a> <op> <b>;` parses to the declaration of `<id>` with that operation.
pub proof fn lemma_parse_operation_declaration(id: Seq<char>, a: nat, op: char, b: nat)
    requires
        is_name(id),
        a <= i32::MAX,
        b <= i32::MAX,
        is_arith_op(op),
    ensures
        parse_source(declaration_text(id, operation_text(a, op, b))) == Ok::<SpecAst, ParseError>(
            SpecAst::Program(
                seq![SpecAst::VariableDeclaration(id, Box::new(operation_ast(a, op, b)))],
            ),
        ),
{
    let s = declaration_text(id, operation_text(a, op, b));
    assert(s.subrange(0, s.len() as int) =~= s);
    lemma_lex_operation_declaration(s, id, a, op, b);
    lemma_lex_end(s);
    let t = operation_tokens(id, a, op, b) + seq![token(TokenType::Eof, Seq::empty())];
    assert(lex(s) == Ok::<Seq<SpecToken>, LexError>(t));
    assert(t.subrange(0, 7) =~= operation_tokens(id, a, op, b));
    lemma_parse_operation_statement(t, id, a, op, b);
    let decl = SpecAst::VariableDeclaration(id, Box::new(operation_ast(a, op, b)));
    assert(t[7].kind == TokenType::Eof);
    assert(statements_from(t, 7) == Ok::<Seq<SpecAst>, ParseError>(Seq::empty()));
    assert(statements_from(t, 0) == Ok::<Seq<SpecAst>, ParseError>(seq![decl])) by {
        assert(seq![decl] + Seq::<SpecAst>::empty() =~= seq![decl]);
    }
}

/// The IR of `let <id> = <a> <op> <b>;`: the operation on two constants, writing `<id>`.
pub open spec fn operation_ir(id: Seq<char>, a: nat, op: char, b: nat) -> SpecIR {
    SpecIR::BinaryOperation(
        seq![op],
        Box::new(SpecIR::Immediate(a as i32, placeholder())),
        Box::new(SpecIR::Immediate(b as i32, placeholder())),
        id,
    )
}

pub proof fn lemma_lower_operation_declaration(id: Seq<char>, a: nat, op: char, b: nat)
    requires
        is_name(id),
        a <= i32::MAX,
        b <= i32::MAX,
        is_arith_op(op),
    ensures
        lower_source(declaration_text(id, operation_text(a, op, b))) == Ok::<
            Seq<SpecIR>,
            CompileError,
        >(seq![operation_ir(id, a, op, b)]),
{
    lemma_parse_operation_declaration(id, a, op, b);
    let decl = SpecAst::VariableDeclaration(id, Box::new(operation_ast(a, op, b)));
    let x = operation_ir(id, a, op, b);
    assert(lower_operand(SpecAst::Number(a as i32)) == Ok::<SpecIR, LowerError>(
        SpecIR::Immediate(a as i32, placeholder()),
    ));
    assert(lower_operand(SpecAst::Number(b as i32)) == Ok::<SpecIR, LowerError>(
        SpecIR::Immediate(b as i32, placeholder()),
    ));
    assert(lower_statement(decl) == Ok::<SpecIR, LowerError>(x));
    assert(seq![decl].drop_last() =~= Seq::<SpecAst>::empty());
    assert(seq![decl].last() == decl);
    assert(lower_statements(seq![decl].drop_last()) == Ok::<Seq<SpecIR>, LowerError>(
        Seq::empty(),
    ));
    assert(Seq::<SpecIR>::empty().push(x) =~= seq![x]);
}

/// A declaration `let <id> = <a> <op> <b>;` of two literals whose exact value `v` fits in an
/// `i32` (division rounding toward zero, by a non-zero divisor): compiled without
/// optimization, it loads the operands into the temporaries `t0` and `t1` and computes `v`
/// into the fresh temporary `t2`, which holds `v` after a run; constant folding turns its IR
/// into the constant `v` bound to `<id>`.
pub proof fn law_arithmetic(id: Seq<char>, a: nat, op: char, b: nat)
    requires
        is_name(id),
        a <= i32::MAX,
        b <= i32::MAX,
        is_arith_op(op),
        op == '/' ==> b != 0,
        in_i32(op_value(op, a as int, b as int)),
    ensures
        ({
            let src = declaration_text(id, operation_text(a, op, b));
            let v = op_value(op, a as int, b as int) as i32;
            &&& compile_source(src, false) == Ok::<Seq<SpecInstr>, CompileError>(
                seq![
                    SpecInstr::LoadImmediate(temp_name(0), a as i32),
                    SpecInstr::LoadImmediate(temp_name(1), b as i32),
                    arith_instr(op, temp_name(2), temp_name(0), temp_name(1)),
                ],
            )
            &&& run_program(
                seq![
                    SpecInstr::LoadImmediate(temp_name(0), a as i32),
                    SpecInstr::LoadImmediate(temp_name(1), b as i32),
                    arith_instr(op, temp_name(2), temp_name(0), temp_name(1)),
                ],
            ).error is None
            &&& run_program(
                seq![
                    SpecInstr::LoadImmediate(temp_name(0), a as i32),
                    SpecInstr::LoadImmediate(temp_name(1), b as i32),
                    arith_instr(op, temp_name(2), temp_name(0), temp_name(1)),
                ],
            ).store[temp_name(2)] == v
            &&& lower_source(src) matches Ok(ir) && fold_all(ir) == Ok::<
                Seq<SpecIR>,
                OptimizeError,
            >(seq![SpecIR::Immediate(v, id)])
        }),
{
    let src = declaration_text(id, operation_text(a, op, b));
    let v = op_value(op, a as int, b as int) as i32;
    lemma_lower_operation_declaration(id, a, op, b);
    let x = operation_ir(id, a, op, b);
    let ir = seq![x];
    let t0 = temp_name(0);
    let t1 = temp_name(1);
    let t2 = temp_name(2);
    assert(t0[1] != t1[1]);
    let code = seq![
        SpecInstr::LoadImmediate(t0, a as i32),
        SpecInstr::LoadImmediate(t1, b as i32),
        arith_instr(op, t2, t0, t1),
    ];
    assert(gen_operand(SpecIR::Immediate(a as i32, placeholder()), 0) == Ok::<
        (Seq<SpecInstr>, Seq<char>, nat),
        CodegenError,
    >((seq![SpecInstr::LoadImmediate(t0, a as i32)], t0, 1)));
    assert(gen_operand(SpecIR::Immediate(b as i32, placeholder()), 1) == Ok::<
        (Seq<SpecInstr>, Seq<char>, nat),
        CodegenError,
    >((seq![SpecInstr::LoadImmediate(t1, b as i32)], t1, 2)));
    assert(seq![SpecInstr::LoadImmediate(t0, a as i32)] + seq![SpecInstr::LoadImmediate(t1, b as i32)]
        + seq![arith_instr(op, t2, t0, t1)] =~= code);
    assert(gen_operand(x, 0) == Ok::<(Seq<SpecInstr>, Seq<char>, nat), CodegenError>(
        (code, t2, 3),
    ));
    assert(gen_node(x, 0) == Ok::<(Seq<SpecInstr>, nat), CodegenError>((code, 3)));
    assert(ir.drop_last() =~= Seq::<SpecIR>::empty());
    assert(ir.last() == x);
    assert(gen_all(ir.drop_last(), 0) == Ok::<(Seq<SpecInstr>, nat), CodegenError>(
        (Seq::empty(), 0),
    ));
    assert(Seq::<SpecInstr>::empty() + code =~= code);
    assert(compile_source(src, false) == Ok::<Seq<SpecInstr>, CompileError>(code));
    let s1 = Map::<Seq<char>, i32>::empty().insert(t0, a as i32);
    let s2 = s1.insert(t1, b as i32);
    let s3 = s2.insert(t2, v);
    assert(arith_step(s2, op, t2, t0, t1) == Ok::<Map<Seq<char>, i32>, SpecRuntimeError>(s3));
    assert(step(s2, Seq::empty(), code[2]) == Ok::<
        (Map<Seq<char>, i32>, Seq<Seq<char>>),
        SpecRuntimeError,
    >((s3, Seq::empty())));
    assert(code.drop_first().drop_first().drop_first() =~= Seq::<SpecInstr>::empty());
    assert(run_from(code.drop_first().drop_first().drop_first(), s3, Seq::empty()) == Outcome {
        store: s3,
        output: Seq::empty(),
        error: None,
    });
    assert(code.drop_first().drop_first()[0] == code[2]);
    assert(run_from(code.drop_first().drop_first(), s2, Seq::empty()) == Outcome {
        store: s3,
        output: Seq::empty(),
        error: None,
    });
    assert(code.drop_first()[0] == code[1]);
    assert(run_from(code.drop_first(), s1, Seq::empty()) == Outcome {
        store: s3,
        output: Seq::empty(),
        error: None,
    });
    assert(run_program(code) == Outcome { store: s3, output: Seq::empty(), error: None });
    assert(fold_node(SpecIR::Immediate(a as i32, placeholder())) == Ok::<SpecIR, OptimizeError>(
        SpecIR::Immediate(a as i32, placeholder()),
    ));
    assert(fold_node(SpecIR::Immediate(b as i32, placeholder())) == Ok::<SpecIR, OptimizeError>(
        SpecIR::Immediate(b as i32, placeholder()),
    ));
    assert(operator_char(seq![op]) == Some(op));
    assert(fold_value(seq![op], a as i32, b as i32) == Ok::<i32, OptimizeError>(v));
    assert(fold_node(x) == Ok::<SpecIR, OptimizeError>(SpecIR::Immediate(v, id)));
    assert(fold_all(ir.drop_last()) == Ok::<Seq<SpecIR>, OptimizeError>(Seq::empty()));
    assert(Seq::<SpecIR>::empty().push(SpecIR::Immediate(v, id)) =~= seq![SpecIR::Immediate(v, id)]);
}

/// A declaration `let <id> = <a> / 0;` never yields a value: with optimization it fails at
/// constant folding, and without, the compiled program fails at its division when run.
pub proof fn law_divide_by_zero(id: Seq<char>, a: nat)
    requires
        is_name(id),
        a <= i32::MAX,
    ensures
        ({
            let src = declaration_text(id, operation_text(a, '/', 0));
            &&& compile_source(src, true) == Err::<Seq<SpecInstr>, CompileError>(
                CompileError::Optimize(OptimizeError::DivideByZero),
            )
            &&& compile_source(src, false) matches Ok(code) && run_program(code).error
                == Some(SpecRuntimeError::DivideByZero)
        }),
{
    let src = declaration_text(id, operation_text(a, '/', 0));
    lemma_lower_operation_declaration(id, a, '/', 0);
    let x = operation_ir(id, a, '/', 0);
    let ir = seq![x];
    assert(fold_node(SpecIR::Immediate(a as i32, placeholder())) == Ok::<SpecIR, OptimizeError>(
        SpecIR::Immediate(a as i32, placeholder()),
    ));
    assert(fold_node(SpecIR::Immediate(0, placeholder())) == Ok::<SpecIR, OptimizeError>(
        SpecIR::Immediate(0, placeholder()),
    ));
    assert(operator_char(seq!['/']) == Some('/'));
    assert(fold_node(x) == Err::<SpecIR, OptimizeError>(OptimizeError::DivideByZero));
    assert(ir.drop_last() =~= Seq::<SpecIR>::empty());
    assert(ir.last() == x);
    assert(fold_all(ir.drop_last()) == Ok::<Seq<SpecIR>, OptimizeError>(Seq::empty()));
    assert(fold_all(ir) == Err::<Seq<SpecIR>, OptimizeError>(OptimizeError::DivideByZero));
    let t0 = temp_name(0);
    let t1 = temp_name(1);
    let t2 = temp_name(2);
    assert(t0[1] != t1[1]);
    let code = seq![
        SpecInstr::LoadImmediate(t0, a as i32),
        SpecInstr::LoadImmediate(t1, 0),
        SpecInstr::Div(t2, t0, t1),
    ];
    assert(gen_operand(SpecIR::Immediate(a as i32, placeholder()), 0) == Ok::<
        (Seq<SpecInstr>, Seq<char>, nat),
        CodegenError,
    >((seq![SpecInstr::LoadImmediate(t0, a as i32)], t0, 1)));
    assert(gen_operand(SpecIR::Immediate(0, placeholder()), 1) == Ok::<
        (Seq<SpecInstr>, Seq<char>, nat),
        CodegenError,
    >((seq![SpecInstr::LoadImmediate(t1, 0)], t1, 2)));
    assert(seq![SpecInstr::LoadImmediate(t0, a as i32)] + seq![SpecInstr::LoadImmediate(t1, 0)]
        + seq![SpecInstr::Div(t2, t0, t1)] =~= code);
    assert(gen_operand(x, 0) == Ok::<(Seq<SpecInstr>, Seq<char>, nat), CodegenError>(
        (code, t2, 3),
    ));
    assert(gen_node(x, 0) == Ok::<(Seq<SpecInstr>, nat), CodegenError>((code, 3)));
    assert(gen_all(ir.drop_last(), 0) == Ok::<(Seq<SpecInstr>, nat), CodegenError>(
        (Seq::empty(), 0),
    ));
    assert(Seq::<SpecInstr>::empty() + code =~= code);
    assert(compile_source(src, false) == Ok::<Seq<SpecInstr>, CompileError>(code));
    let s1 = Map::<Seq<char>, i32>::empty().insert(t0, a as i32);
    let s2 = s1.insert(t1, 0);
    assert(step(s2, Seq::empty(), code[2]) == Err::<
        (Map<Seq<char>, i32>, Seq<Seq<char>>),
        SpecRuntimeError,
    >(SpecRuntimeError::DivideByZero));
    assert(code.drop_first().drop_first()[0] == code[2]);
    assert(run_from(code.drop_first().drop_first(), s2, Seq::empty()).error == Some(
        SpecRuntimeError::DivideByZero,
    ));
    assert(code.drop_first()[0] == code[1]);
    assert(run_from(code.drop_first(), s1, Seq::empty()).error == Some(
        SpecRuntimeError::DivideByZero,
    ));
}

/// The text ` print <id>;`.
pub open spec fn print_text(id: Seq<char>) -> Seq<char> {
    seq![' ', 'p', 'r', 'i', 'n', 't', ' '] + id + seq![';']
}

pub open spec fn print_tokens(id: Seq<char>) -> Seq<SpecToken> {
    seq![
        token(TokenType::Identifier, seq!['p', 'r', 'i', 'n', 't']),
        token(TokenType::Identifier, id),
        token(TokenType::Punctuation, seq![';']),
    ]
}

/// The tokens of ` print <id>;` standing at position `p`.
pub proof fn lemma_lex_print_tail(s: Seq<char>, p: int, id: Seq<char>)
    requires
        is_name(id),
        0 <= p,
        p + print_text(id).len() <= s.len(),
        s.subrange(p, p + print_text(id).len()) == print_text(id),
    ensures
        lex_from(s, p) == prepend_tokens(print_tokens(id), lex_from(s, p + print_text(id).len())),
{
    let k = id.len() as int;
    let w = print_text(id);
    assert(w.len() == 8 + k);
    assert forall|i: int| 0 <= i < w.len() implies s[p + i] == #[trigger] w[i] by {
        assert(s.subrange(p, p + w.len())[i] == s[p + i]);
    }
    assert(s[p] == w[0]);
    assert forall|i: int| p + 1 <= i < p + 6 implies is_letter(#[trigger] s[i]) by {
        assert(s[p + (i - p)] == w[i - p]);
    }
    assert(s[p + 6] == w[6]);
    assert(s.subrange(p + 1, p + 6) =~= seq!['p', 'r', 'i', 'n', 't']) by {
        assert forall|i: int| 0 <= i < 5 implies s.subrange(p + 1, p + 6)[i] == seq![
            'p',
            'r',
            'i',
            'n',
            't',
        ][i] by {
            assert(s[p + (1 + i)] == w[1 + i]);
        }
    }
    assert(seq!['p', 'r', 'i', 'n', 't'] != let_word()) by {
        assert(seq!['p', 'r', 'i', 'n', 't'].len() != let_word().len());
    }
    lemma_scan_space(s, p);
    lemma_scan_word(s, p + 1, p + 6);
    lemma_lex_step(s, p);
    assert forall|i: int| p + 7 <= i < p + 7 + k implies is_letter(#[trigger] s[i]) by {
        assert(s[p + (i - p)] == w[i - p]);
        assert(w[i - p] == id[i - p - 7]);
    }
    assert(s[p + 7 + k] == w[7 + k]);
    assert(s.subrange(p + 7, p + 7 + k) =~= id) by {
        assert forall|i: int| 0 <= i < k implies s.subrange(p + 7, p + 7 + k)[i] == id[i] by {
            assert(s[p + (7 + i)] == w[7 + i]);
        }
    }
    lemma_scan_space(s, p + 6);
    lemma_scan_word(s, p + 7, p + 7 + k);
    lemma_lex_step(s, p + 6);
    lemma_lex_step(s, p + 7 + k);
    let rest = lex_from(s, p + 8 + k);
    lemma_prepend_twice(
        seq![token(TokenType::Identifier, id)],
        seq![token(TokenType::Punctuation, seq![';'])],
        rest,
    );
    lemma_prepend_twice(
        seq![token(TokenType::Identifier, seq!['p', 'r', 'i', 'n', 't'])],
        seq![token(TokenType::Identifier, id)] + seq![token(TokenType::Punctuation, seq![';'])],
        rest,
    );
    assert(seq![token(TokenType::Identifier, seq!['p', 'r', 'i', 'n', 't'])] + (seq![
        token(TokenType::Identifier, id),
    ] + seq![token(TokenType::Punctuation, seq![';'])]) =~= print_tokens(id));
}

/// `let <id> = <a> <op> <b>; print <id>;` parses to the declaration and the print.
pub proof fn lemma_parse_printed_operation(id: Seq<char>, a: nat, op: char, b: nat)
    requires
        is_name(id),
        a <= i32::MAX,
        b <= i32::MAX,
        is_arith_op(op),
    ensures
        parse_source(declaration_text(id, operation_text(a, op, b)) + print_text(id)) == Ok::<
            SpecAst,
            ParseError,
        >(
            SpecAst::Program(
                seq![
                    SpecAst::VariableDeclaration(id, Box::new(operation_ast(a, op, b))),
                    SpecAst::Expression(SpecAstType::Identifier(id)),
                ],
            ),
        ),
{
    let d = declaration_text(id, operation_text(a, op, b));
    let s = d + print_text(id);
    assert(s.subrange(0, d.len() as int) =~= d);
    assert(s.subrange(d.len() as int, (d.len() + print_text(id).len()) as int) =~= print_text(id));
    lemma_lex_operation_declaration(s, id, a, op, b);
    lemma_lex_print_tail(s, d.len() as int, id);
    lemma_lex_end(s);
    lemma_prepend_twice(
        operation_tokens(id, a, op, b),
        print_tokens(id),
        lex_from(s, s.len() as int),
    );
    let t = operation_tokens(id, a, op, b) + print_tokens(id) + seq![
        token(TokenType::Eof, Seq::empty()),
    ];
    assert(lex(s) == Ok::<Seq<SpecToken>, LexError>(t));
    assert(t.subrange(0, 7) =~= operation_tokens(id, a, op, b));
    lemma_parse_operation_statement(t, id, a, op, b);
    let decl = SpecAst::VariableDeclaration(id, Box::new(operation_ast(a, op, b)));
    let shown = SpecAst::Expression(SpecAstType::Identifier(id));
    assert(t[7] == token(TokenType::Identifier, seq!['p', 'r', 'i', 'n', 't']));
    assert(t[8] == token(TokenType::Identifier, id));
    assert(t[9] == token(TokenType::Punctuation, seq![';']));
    assert(t[10].kind == TokenType::Eof);
    assert(seq!['p', 'r', 'i', 'n', 't'] != let_word()) by {
        assert(seq!['p', 'r', 'i', 'n', 't'].len() != let_word().len());
    }
    assert(primary_at(t, 8) == Ok::<(SpecAst, int), ParseError>((shown, 9)));
    assert(climb(t, 9, shown, 1) == Ok::<(SpecAst, int), ParseError>((shown, 9)));
    assert(statement_at(t, 7) == Ok::<(SpecAst, int), ParseError>((shown, 10)));
    assert(statements_from(t, 10) == Ok::<Seq<SpecAst>, ParseError>(Seq::empty()));
    assert(statements_from(t, 7) == Ok::<Seq<SpecAst>, ParseError>(seq![shown])) by {
        assert(seq![shown] + Seq::<SpecAst>::empty() =~= seq![shown]);
    }
    assert(statements_from(t, 0) == Ok::<Seq<SpecAst>, ParseError>(seq![decl, shown])) by {
        assert(seq![decl] + seq![shown] =~= seq![decl, shown]);
    }
}

/// `let <id> = <a> <op> <b>; print <id>;` with a value `v` that fits in an `i32`: optimized,
/// it compiles to loading `v` into `<id>` and printing it; run, it binds `<id>` to `v` and
/// prints `<id> = <v>`.
pub proof fn law_optimized_arithmetic(id: Seq<char>, a: nat, op: char, b: nat)
    requires
        is_name(id),
        a <= i32::MAX,
        b <= i32::MAX,
        is_arith_op(op),
        op == '/' ==> b != 0,
        in_i32(op_value(op, a as int, b as int)),
    ensures
        ({
            let src = declaration_text(id, operation_text(a, op, b)) + print_text(id);
            let v = op_value(op, a as int, b as int) as i32;
            let code = seq![SpecInstr::LoadImmediate(id, v), SpecInstr::Print(id)];
            &&& compile_source(src, true) == Ok::<Seq<SpecInstr>, CompileError>(code)
            &&& run_program(code) == Outcome {
                store: Map::<Seq<char>, i32>::empty().insert(id, v),
                output: seq![print_line(id, v)],
                error: None,
            }
        }),
{
    let src = declaration_text(id, operation_text(a, op, b)) + print_text(id);
    let v = op_value(op, a as int, b as int) as i32;
    lemma_parse_printed_operation(id, a, op, b);
    let decl = SpecAst::VariableDeclaration(id, Box::new(operation_ast(a, op, b)));
    let shown = SpecAst::Expression(SpecAstType::Identifier(id));
    let x = operation_ir(id, a, op, b);
    let pr = SpecIR::Print(id);
    assert(lower_operand(SpecAst::Number(a as i32)) == Ok::<SpecIR, LowerError>(
        SpecIR::Immediate(a as i32, placeholder()),
    ));
    assert(lower_operand(SpecAst::Number(b as i32)) == Ok::<SpecIR, LowerError>(
        SpecIR::Immediate(b as i32, placeholder()),
    ));
    assert(lower_statement(decl) == Ok::<SpecIR, LowerError>(x));
    assert(lower_statement(shown) == Ok::<SpecIR, LowerError>(pr));
    let stmts = seq![decl, shown];
    assert(stmts.drop_last() =~= seq![decl]);
    assert(seq![decl].drop_last() =~= Seq::<SpecAst>::empty());
    assert(lower_statements(Seq::<SpecAst>::empty()) == Ok::<Seq<SpecIR>, LowerError>(
        Seq::empty(),
    ));
    assert(lower_statements(seq![decl]) == Ok::<Seq<SpecIR>, LowerError>(seq![x])) by {
        assert(Seq::<SpecIR>::empty().push(x) =~= seq![x]);
    }
    assert(lower_statements(stmts) == Ok::<Seq<SpecIR>, LowerError>(seq![x, pr])) by {
        assert(seq![x].push(pr) =~= seq![x, pr]);
    }
    assert(lower_source(src) == Ok::<Seq<SpecIR>, CompileError>(seq![x, pr]));
    assert(fold_node(SpecIR::Immediate(a as i32, placeholder())) == Ok::<SpecIR, OptimizeError>(
        SpecIR::Immediate(a as i32, placeholder()),
    ));
    assert(fold_node(SpecIR::Immediate(b as i32, placeholder())) == Ok::<SpecIR, OptimizeError>(
        SpecIR::Immediate(b as i32, placeholder()),
    ));
    assert(operator_char(seq![op]) == Some(op));
    assert(fold_value(seq![op], a as i32, b as i32) == Ok::<i32, OptimizeError>(v));
    let c = SpecIR::Immediate(v, id);
    assert(fold_node(x) == Ok::<SpecIR, OptimizeError>(c));
    let ir = seq![x, pr];
    assert(ir.drop_last() =~= seq![x]);
    assert(seq![x].drop_last() =~= Seq::<SpecIR>::empty());
    assert(fold_all(Seq::<SpecIR>::empty()) == Ok::<Seq<SpecIR>, OptimizeError>(Seq::empty()));
    assert(fold_all(seq![x]) == Ok::<Seq<SpecIR>, OptimizeError>(seq![c])) by {
        assert(Seq::<SpecIR>::empty().push(c) =~= seq![c]);
    }
    let folded = seq![c, pr];
    assert(fold_all(ir) == Ok::<Seq<SpecIR>, OptimizeError>(folded)) by {
        assert(seq![c].push(pr) =~= folded);
    }
    let live = Set::<Seq<char>>::empty().insert(id);
    assert(folded.drop_last() =~= seq![c]);
    assert(seq![c].drop_last() =~= Seq::<SpecIR>::empty());
    assert(dce_from(Seq::<SpecIR>::empty(), live.remove(id)) == Seq::<SpecIR>::empty());
    assert(dce_from(seq![c], live) == seq![c]) by {
        assert(Seq::<SpecIR>::empty().push(c) =~= seq![c]);
    }
    assert(eliminate_dead_code(folded) == folded) by {
        assert(seq![c].push(pr) =~= folded);
    }
    assert(optimize_ir(ir) == Ok::<Seq<SpecIR>, OptimizeError>(folded));
    let code = seq![SpecInstr::LoadImmediate(id, v), SpecInstr::Print(id)];
    assert(gen_all(Seq::<SpecIR>::empty(), 0) == Ok::<(Seq<SpecInstr>, nat), CodegenError>(
        (Seq::empty(), 0),
    ));
    assert(gen_all(seq![c], 0) == Ok::<(Seq<SpecInstr>, nat), CodegenError>(
        (seq![SpecInstr::LoadImmediate(id, v)], 0),
    )) by {
        assert(Seq::<SpecInstr>::empty() + seq![SpecInstr::LoadImmediate(id, v)] =~= seq![
            SpecInstr::LoadImmediate(id, v),
        ]);
    }
    assert(gen_all(folded, 0) == Ok::<(Seq<SpecInstr>, nat), CodegenError>((code, 0))) by {
        assert(seq![SpecInstr::LoadImmediate(id, v)] + seq![SpecInstr::Print(id)] =~= code);
    }
    assert(compile_source(src, true) == Ok::<Seq<SpecInstr>, CompileError>(code));
    let st = Map::<Seq<char>, i32>::empty().insert(id, v);
    let out = seq![print_line(id, v)];
    assert(code.drop_first() =~= seq![SpecInstr::Print(id)]);
    assert(seq![SpecInstr::Print(id)].drop_first() =~= Seq::<SpecInstr>::empty());
    assert(Seq::<Seq<char>>::empty().push(print_line(id, v)) =~= out);
    assert(run_from(Seq::<SpecInstr>::empty(), st, out) == Outcome {
        store: st,
        output: out,
        error: None,
    });
    assert(run_from(seq![SpecInstr::Print(id)], st, Seq::empty()) == Outcome {
        store: st,
        output: out,
        error: None,
    });
}

} // verus!
