use crate::lexer::{
    lex_from, let_word, literal_value, parse_literal, tokens_view, LexError, Lexer, SpecToken,
    Token, TokenType,
};
use vstd::prelude::*;

verus! {

/// A node of the syntax tree.
#[derive(Debug)]
pub enum ASTNode {
    Program(Vec<ASTNode>),
    VariableDeclaration { name: String, value: Box<ASTNode> },
    Expression(ASTNodeType),
    Number(i32),
    BinaryOperation { left: Box<ASTNode>, operator: String, right: Box<ASTNode> },
}

/// An expression standing as a node of its own.
#[derive(Debug)]
pub enum ASTNodeType {
    Identifier(String),
    Number(i32),
    BinaryOperation { operator: String, left: Box<ASTNode>, right: Box<ASTNode> },
}

/// A syntax tree as a mathematical value.
pub enum SpecAst {
    Program(Seq<SpecAst>),
    VariableDeclaration(Seq<char>, Box<SpecAst>),
    Expression(SpecAstType),
    Number(i32),
    BinaryOperation(Box<SpecAst>, Seq<char>, Box<SpecAst>),
}

pub enum SpecAstType {
    Identifier(Seq<char>),
    Number(i32),
    BinaryOperation(Seq<char>, Box<SpecAst>, Box<SpecAst>),
}

/// A syntax tree as a value.
pub open spec fn ast_view(n: &ASTNode) -> SpecAst
    decreases n,
{
    match n {
        ASTNode::Program(v) => SpecAst::Program(
            Seq::new(
                v.len() as nat,
                |i: int|
                    if 0 <= i < v.len() {
                        ast_view(&v[i])
                    } else {
                        SpecAst::Number(0)
                    },
            ),
        ),
        ASTNode::VariableDeclaration { name, value } => SpecAst::VariableDeclaration(
            name@,
            Box::new(ast_view(value)),
        ),
        ASTNode::Expression(e) => SpecAst::Expression(ast_type_view(e)),
        ASTNode::Number(n) => SpecAst::Number(*n),
        ASTNode::BinaryOperation { left, operator, right } => SpecAst::BinaryOperation(
            Box::new(ast_view(left)),
            operator@,
            Box::new(ast_view(right)),
        ),
    }
}

/// An expression node as a value.
pub open spec fn ast_type_view(e: &ASTNodeType) -> SpecAstType
    decreases e,
{
    match e {
        ASTNodeType::Identifier(name) => SpecAstType::Identifier(name@),
        ASTNodeType::Number(n) => SpecAstType::Number(*n),
        ASTNodeType::BinaryOperation { operator, left, right } => SpecAstType::BinaryOperation(
            operator@,
            Box::new(ast_view(left)),
            Box::new(ast_view(right)),
        ),
    }
}

} // verus!

verus! {

/// Why parsing stopped.
#[derive(Debug, Clone, Copy, PartialEq, Eq, Structural)]
pub enum ParseError {
    /// The source text could not be read as tokens.
    Lex(LexError),
    /// A token of this kind, with this text where the text is fixed, was required here.
    ExpectedToken { kind: TokenType, lexeme: Option<char> },
    /// A token that cannot start an operand.
    UnexpectedToken(TokenType),
    /// The input ended where an operand was required.
    UnexpectedEndOfInput,
    /// A literal whose text is not a number that fits in an `i32`.
    InvalidNumber,
}

/// The token at position `i`, or an end-of-input token past the end.
pub open spec fn tok_at(t: Seq<SpecToken>, i: int) -> SpecToken {
    if 0 <= i < t.len() {
        t[i]
    } else {
        SpecToken { kind: TokenType::Eof, text: Seq::empty() }
    }
}

pub open spec fn is_symbol(tok: SpecToken, kind: TokenType, c: char) -> bool {
    tok.kind == kind && tok.text == seq![c]
}

/// How tightly a binary operator binds; 0 for a token that is no binary operator. `=` is
/// none: a declaration is the only place it stands, never inside an expression.
pub open spec fn precedence(tok: SpecToken) -> nat {
    if tok.kind != TokenType::Operator {
        0
    } else if tok.text == seq!['+'] || tok.text == seq!['-'] {
        2
    } else if tok.text == seq!['*'] || tok.text == seq!['/'] {
        3
    } else {
        0
    }
}

/// An operand: an identifier or a numeric literal.
pub open spec fn primary_at(t: Seq<SpecToken>, i: int) -> Result<(SpecAst, int), ParseError> {
    let tok = tok_at(t, i);
    match tok.kind {
        TokenType::Identifier => Ok(
            (SpecAst::Expression(SpecAstType::Identifier(tok.text)), i + 1),
        ),
        TokenType::Literal => match literal_value(tok.text) {
            Some(v) => Ok((SpecAst::Number(v), i + 1)),
            None => Err(ParseError::InvalidNumber),
        },
        TokenType::Eof => Err(ParseError::UnexpectedEndOfInput),
        k => Err(ParseError::UnexpectedToken(k)),
    }
}

/// Precedence climbing from position `i`, with `left` already read: while the next token is
/// an operator of precedence at least `min`, it is taken, its right operand is read together
/// with every following operator of strictly higher precedence, and the two are combined.
pub open spec fn climb(t: Seq<SpecToken>, i: int, left: SpecAst, min: nat) -> Result<
    (SpecAst, int),
    ParseError,
>
    decreases t.len() - i,
{
    let p = precedence(tok_at(t, i));
    if 0 <= i < t.len() && p >= 1 && p >= min {
        match primary_at(t, i + 1) {
            Err(e) => Err(e),
            Ok((operand, j)) => match climb(t, j, operand, p + 1) {
                Err(e) => Err(e),
                Ok((right, k)) => {
                    // The position never moves back; the test keeps the definition well founded.
                    if k <= i || k > t.len() {
                        Err(ParseError::UnexpectedEndOfInput)
                    } else {
                        climb(
                            t,
                            k,
                            SpecAst::BinaryOperation(Box::new(left), t[i].text, Box::new(right)),
                            min,
                        )
                    }
                },
            },
        }
    } else {
        Ok((left, i))
    }
}

/// An expression starting at position `i`.
pub open spec fn expression_at(t: Seq<SpecToken>, i: int) -> Result<(SpecAst, int), ParseError> {
    match primary_at(t, i) {
        Err(e) => Err(e),
        Ok((first, j)) => climb(t, j, first, 1),
    }
}

/// `r`, provided the token that follows it is a `;`, which is then taken too.
pub open spec fn then_semicolon(t: Seq<SpecToken>, r: Result<(SpecAst, int), ParseError>) -> Result<
    (SpecAst, int),
    ParseError,
> {
    match r {
        Err(e) => Err(e),
        Ok((n, j)) => if is_symbol(tok_at(t, j), TokenType::Punctuation, ';') {
            Ok((n, j + 1))
        } else {
            Err(ParseError::ExpectedToken { kind: TokenType::Punctuation, lexeme: Some(';') })
        },
    }
}

/// A statement starting at position `i`: `let <identifier> = <expression> ;`, or an expression
/// followed by `;`. An identifier directly followed by another identifier is a command word
/// (the `print` of `print x;`): the statement is the expression after it.
pub open spec fn statement_at(t: Seq<SpecToken>, i: int) -> Result<(SpecAst, int), ParseError> {
    let tok = tok_at(t, i);
    if tok.kind == TokenType::Keyword && tok.text == let_word() {
        let name = tok_at(t, i + 1);
        if name.kind != TokenType::Identifier {
            Err(ParseError::ExpectedToken { kind: TokenType::Identifier, lexeme: None })
        } else if !is_symbol(tok_at(t, i + 2), TokenType::Operator, '=') {
            Err(ParseError::ExpectedToken { kind: TokenType::Operator, lexeme: Some('=') })
        } else {
            match then_semicolon(t, expression_at(t, i + 3)) {
                Err(e) => Err(e),
                Ok((value, j)) => Ok(
                    (SpecAst::VariableDeclaration(name.text, Box::new(value)), j),
                ),
            }
        }
    } else if tok.kind == TokenType::Identifier && tok_at(t, i + 1).kind == TokenType::Identifier {
        then_semicolon(t, expression_at(t, i + 1))
    } else {
        then_semicolon(t, expression_at(t, i))
    }
}

/// The statements from position `i` up to the end of input.
pub open spec fn statements_from(t: Seq<SpecToken>, i: int) -> Result<Seq<SpecAst>, ParseError>
    decreases t.len() - i,
{
    if i < 0 || i >= t.len() || t[i].kind == TokenType::Eof {
        Ok(Seq::empty())
    } else {
        match statement_at(t, i) {
            Err(e) => Err(e),
            Ok((s, j)) => {
                // The position always moves forward; the test keeps the definition well founded.
                if j <= i || j > t.len() {
                    Err(ParseError::UnexpectedEndOfInput)
                } else {
                    match statements_from(t, j) {
                        Ok(rest) => Ok(seq![s] + rest),
                        Err(e) => Err(e),
                    }
                }
            },
        }
    }
}

/// The program a token sequence stands for.
pub open spec fn parse_tokens(t: Seq<SpecToken>) -> Result<SpecAst, ParseError> {
    match statements_from(t, 0) {
        Ok(s) => Ok(SpecAst::Program(s)),
        Err(e) => Err(e),
    }
}

/// The program that the text `s`, read from position `p` on, stands for.
pub open spec fn parse_source_from(s: Seq<char>, p: int) -> Result<SpecAst, ParseError> {
    match lex_from(s, p) {
        Err(e) => Err(ParseError::Lex(e)),
        Ok(t) => parse_tokens(t),
    }
}

/// The program that a whole source text stands for.
pub open spec fn parse_source(s: Seq<char>) -> Result<SpecAst, ParseError> {
    parse_source_from(s, 0)
}

/// The statements of a vector, as values.
pub open spec fn nodes_view(v: Seq<ASTNode>) -> Seq<SpecAst> {
    Seq::new(v.len(), |k: int| ast_view(&v[k]))
}

pub open spec fn step_view(r: Result<(ASTNode, usize), ParseError>) -> Result<
    (SpecAst, int),
    ParseError,
> {
    match r {
        Ok((n, k)) => Ok((ast_view(&n), k as int)),
        Err(e) => Err(e),
    }
}

pub open spec fn ast_result_view(r: Result<ASTNode, ParseError>) -> Result<SpecAst, ParseError> {
    match r {
        Ok(n) => Ok(ast_view(&n)),
        Err(e) => Err(e),
    }
}

fn kind_at(toks: &Vec<Token>, i: usize) -> (k: TokenType)
    ensures
        k == tok_at(tokens_view(toks@), i as int).kind,
        tokens_view(toks@).len() == toks.len(),
        k != TokenType::Eof ==> i < toks.len(),
        i < toks.len() ==> tok_at(tokens_view(toks@), i as int) == toks@[i as int]@,
{
    if i < toks.len() {
        toks[i].token_type
    } else {
        TokenType::Eof
    }
}

fn symbol_at(toks: &Vec<Token>, i: usize, kind: TokenType, c: char) -> (b: bool)
    ensures
        b == is_symbol(tok_at(tokens_view(toks@), i as int), kind, c),
{
    if i >= toks.len() {
        assert(Seq::<char>::empty().len() != seq![c].len());
        return false;
    }
    let text = toks[i].lexeme.as_str();
    let b = toks[i].token_type == kind && text.unicode_len() == 1 && text.get_char(0) == c;
    proof {
        if b {
            assert(text@ =~= seq![c]);
        } else if text@.len() == 1 {
            assert(text@[0] != c || toks[i as int].token_type != kind);
        }
    }
    b
}

fn precedence_at(toks: &Vec<Token>, i: usize) -> (p: u8)
    ensures
        p as nat == precedence(tok_at(tokens_view(toks@), i as int)),
{
    if symbol_at(toks, i, TokenType::Operator, '+') || symbol_at(toks, i, TokenType::Operator, '-') {
        2
    } else if symbol_at(toks, i, TokenType::Operator, '*') || symbol_at(
        toks,
        i,
        TokenType::Operator,
        '/',
    ) {
        3
    } else {
        0
    }
}

fn parse_primary(toks: &Vec<Token>, i: usize) -> (r: Result<(ASTNode, usize), ParseError>)
    ensures
        step_view(r) == primary_at(tokens_view(toks@), i as int),
        r matches Ok((_, k)) ==> i < k <= toks.len(),
{
    let kind = kind_at(toks, i);
    match kind {
        TokenType::Identifier => {
            let name = toks[i].lexeme.clone();
            assert(name@ == tok_at(tokens_view(toks@), i as int).text);
            let e = ASTNodeType::Identifier(name);
            assert(ast_type_view(&e) == SpecAstType::Identifier(name@));
            let node = ASTNode::Expression(e);
            Ok((node, i + 1))
        },
        TokenType::Literal => match parse_literal(toks[i].lexeme.as_str()) {
            Some(v) => Ok((ASTNode::Number(v), i + 1)),
            None => Err(ParseError::InvalidNumber),
        },
        TokenType::Eof => Err(ParseError::UnexpectedEndOfInput),
        k => Err(ParseError::UnexpectedToken(k)),
    }
}

fn parse_binary_operation(toks: &Vec<Token>, start: usize, first: ASTNode, min_precedence: u8) -> (r:
    Result<(ASTNode, usize), ParseError>)
    requires
        start <= toks.len(),
    ensures
        step_view(r) == climb(tokens_view(toks@), start as int, ast_view(&first), min_precedence as nat),
        r matches Ok((_, k)) ==> start <= k <= toks.len(),
    decreases toks.len() - start,
{
    let ghost t = tokens_view(toks@);
    let mut left = first;
    let mut i = start;
    loop
        invariant
            start <= i <= toks.len(),
            t == tokens_view(toks@),
            climb(t, start as int, ast_view(&first), min_precedence as nat) == climb(
                t,
                i as int,
                ast_view(&left),
                min_precedence as nat,
            ),
        decreases toks.len() - i,
    {
        let p = precedence_at(toks, i);
        if p == 0 || p < min_precedence {
            return Ok((left, i));
        }
        let operator = toks[i].lexeme.clone();
        let (operand, j) = match parse_primary(toks, i + 1) {
            Ok(x) => x,
            Err(e) => {
                return Err(e);
            },
        };
        let (right, k) = match parse_binary_operation(toks, j, operand, p + 1) {
            Ok(x) => x,
            Err(e) => {
                return Err(e);
            },
        };
        left = ASTNode::BinaryOperation { left: Box::new(left), operator, right: Box::new(right) };
        i = k;
    }
}

fn parse_expression(toks: &Vec<Token>, i: usize) -> (r: Result<(ASTNode, usize), ParseError>)
    ensures
        step_view(r) == expression_at(tokens_view(toks@), i as int),
        r matches Ok((_, k)) ==> i < k <= toks.len(),
{
    let (first, j) = match parse_primary(toks, i) {
        Ok(x) => x,
        Err(e) => {
            return Err(e);
        },
    };
    parse_binary_operation(toks, j, first, 1)
}

fn expect_semicolon(toks: &Vec<Token>, r: Result<(ASTNode, usize), ParseError>) -> (out: Result<
    (ASTNode, usize),
    ParseError,
>)
    requires
        r matches Ok((_, k)) ==> k <= toks.len(),
    ensures
        step_view(out) == then_semicolon(tokens_view(toks@), step_view(r)),
        r matches Ok((_, k)) ==> out matches Ok((_, k2)) ==> k < k2 <= toks.len(),
        r is Err ==> out is Err,
{
    match r {
        Err(e) => Err(e),
        Ok((n, j)) => {
            if symbol_at(toks, j, TokenType::Punctuation, ';') {
                Ok((n, j + 1))
            } else {
                Err(ParseError::ExpectedToken { kind: TokenType::Punctuation, lexeme: Some(';') })
            }
        },
    }
}

/// `let <identifier> = <expression> ;`, the `let` standing at position `i`.
fn parse_variable_declaration(toks: &Vec<Token>, i: usize) -> (r: Result<(ASTNode, usize), ParseError>)
    requires
        tok_at(tokens_view(toks@), i as int).kind == TokenType::Keyword,
        tok_at(tokens_view(toks@), i as int).text == let_word(),
    ensures
        step_view(r) == statement_at(tokens_view(toks@), i as int),
        r matches Ok((_, k)) ==> i < k <= toks.len(),
{
    let name_at = i + 1;
    if kind_at(toks, name_at) != TokenType::Identifier {
        return Err(ParseError::ExpectedToken { kind: TokenType::Identifier, lexeme: None });
    }
    let name = toks[name_at].lexeme.clone();
    if !symbol_at(toks, name_at + 1, TokenType::Operator, '=') {
        return Err(ParseError::ExpectedToken { kind: TokenType::Operator, lexeme: Some('=') });
    }
    match expect_semicolon(toks, parse_expression(toks, name_at + 2)) {
        Err(e) => Err(e),
        Ok((value, j)) => Ok((ASTNode::VariableDeclaration { name, value: Box::new(value) }, j)),
    }
}

fn parse_statement(toks: &Vec<Token>, i: usize) -> (r: Result<(ASTNode, usize), ParseError>)
    ensures
        step_view(r) == statement_at(tokens_view(toks@), i as int),
        r matches Ok((_, k)) ==> i < k <= toks.len(),
{
    let kind = kind_at(toks, i);
    if kind == TokenType::Keyword && symbol_let(toks, i) {
        parse_variable_declaration(toks, i)
    } else if kind == TokenType::Identifier && kind_at(toks, i + 1) == TokenType::Identifier {
        expect_semicolon(toks, parse_expression(toks, i + 1))
    } else {
        expect_semicolon(toks, parse_expression(toks, i))
    }
}

fn symbol_let(toks: &Vec<Token>, i: usize) -> (b: bool)
    ensures
        b == (tok_at(tokens_view(toks@), i as int).text == let_word()),
{
    if i >= toks.len() {
        assert(Seq::<char>::empty().len() != let_word().len());
        return false;
    }
    let text = toks[i].lexeme.as_str();
    let b = text.unicode_len() == 3 && text.get_char(0) == 'l' && text.get_char(1) == 'e'
        && text.get_char(2) == 't';
    proof {
        if b {
            assert(text@ =~= let_word());
        } else if text@.len() == 3 {
            assert(text@[0] != let_word()[0] || text@[1] != let_word()[1] || text@[2]
                != let_word()[2]);
        }
    }
    b
}

fn parse_statements(toks: &Vec<Token>) -> (r: Result<Vec<ASTNode>, ParseError>)
    ensures
        statements_from(tokens_view(toks@), 0) == match r {
            Ok(v) => Ok(nodes_view(v@)),
            Err(e) => Err::<Seq<SpecAst>, ParseError>(e),
        },
{
    let ghost t = tokens_view(toks@);
    let mut nodes: Vec<ASTNode> = Vec::new();
    let mut i: usize = 0;
    loop
        invariant
            i <= toks.len(),
            t == tokens_view(toks@),
            statements_from(t, 0) == match statements_from(t, i as int) {
                Ok(rest) => Ok(nodes_view(nodes@) + rest),
                Err(e) => Err::<Seq<SpecAst>, ParseError>(e),
            },
        decreases toks.len() - i,
    {
        if i >= toks.len() || toks[i].token_type == TokenType::Eof {
            assert(nodes_view(nodes@) + Seq::empty() =~= nodes_view(nodes@));
            return Ok(nodes);
        }
        match parse_statement(toks, i) {
            Err(e) => {
                return Err(e);
            },
            Ok((n, j)) => {
                let ghost before = nodes_view(nodes@);
                nodes.push(n);
                assert(nodes_view(nodes@) =~= before.push(ast_view(&n)));
                assert forall|rest: Seq<SpecAst>| #[trigger] (before + (seq![ast_view(&n)] + rest))
                    == nodes_view(nodes@) + rest by {
                    assert(before + (seq![ast_view(&n)] + rest) =~= nodes_view(nodes@) + rest);
                }
                i = j;
            },
        }
    }
}

/// Reads a program from a lexer.
pub struct Parser {
    lexer: Lexer,
}

impl Parser {
    /// Its lexer is well formed.
    pub closed spec fn wf(&self) -> bool {
        self.lexer.wf()
    }

    /// The source text being parsed.
    pub closed spec fn source(&self) -> Seq<char> {
        self.lexer.source()
    }

    /// Where in the source text parsing resumes.
    pub closed spec fn pos(&self) -> int {
        self.lexer.pos()
    }

    pub fn new(lexer: Lexer) -> (r: Parser)
        requires
            lexer.wf(),
        ensures
            r.wf(),
            r.source() == lexer.source(),
            r.pos() == lexer.pos(),
    {
        Parser { lexer }
    }

    /// Reads every remaining token and parses them as a `Program` of statements.
    pub fn parse(&mut self) -> (r: Result<ASTNode, ParseError>)
        requires
            old(self).wf(),
        ensures
            final(self).wf(),
            final(self).source() == old(self).source(),
            ast_result_view(r) == parse_source_from(old(self).source(), old(self).pos()),
    {
        let toks = match self.lexer.tokenize() {
            Ok(t) => t,
            Err(e) => {
                return Err(ParseError::Lex(e));
            },
        };
        match parse_statements(&toks) {
            Ok(nodes) => {
                let r = ASTNode::Program(nodes);
                assert(nodes_view(nodes@) =~= Seq::new(
                    nodes.len() as nat,
                    |i: int|
                        if 0 <= i < nodes.len() {
                            ast_view(&nodes[i])
                        } else {
                            SpecAst::Number(0)
                        },
                ));
                let ghost inner = match ast_view(&r) {
                    SpecAst::Program(s) => s,
                    _ => Seq::empty(),
                };
                assert(inner =~= nodes_view(nodes@));
                Ok(r)
            },
            Err(e) => Err(e),
        }
    }
}

} // verus!
