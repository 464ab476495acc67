use vstd::prelude::*;

verus! {

/// The class of a token.
#[derive(Debug, Clone, Copy, PartialEq, Eq, Structural)]
pub enum TokenType {
    Keyword,
    Identifier,
    Literal,
    Operator,
    Punctuation,
    Eof,
}

/// A token: its class and the text it was read from.
#[derive(Debug, Clone, PartialEq, Eq)]
pub struct Token {
    pub token_type: TokenType,
    pub lexeme: String,
}

/// A token as a mathematical value.
pub struct SpecToken {
    pub kind: TokenType,
    pub text: Seq<char>,
}

impl View for Token {
    type V = SpecToken;

    open spec fn view(&self) -> SpecToken {
        SpecToken { kind: self.token_type, text: self.lexeme@ }
    }
}

/// Why the lexer stopped.
#[derive(Debug, Clone, Copy, PartialEq, Eq, Structural)]
pub enum LexError {
    /// A character that starts no token.
    UnexpectedCharacter(char),
    /// A digit run whose value does not fit in an `i32`.
    MalformedLiteral,
}

pub open spec fn is_space(c: char) -> bool {
    c == ' ' || c == '\t' || c == '\n' || c == '\r' || c == '\x0C'
}

pub open spec fn is_letter(c: char) -> bool {
    ('a' <= c && c <= 'z') || ('A' <= c && c <= 'Z')
}

pub open spec fn is_digit(c: char) -> bool {
    '0' <= c && c <= '9'
}

pub open spec fn is_operator_char(c: char) -> bool {
    c == '=' || c == '+' || c == '-' || c == '*' || c == '/'
}

/// The reserved word `let`.
pub open spec fn let_word() -> Seq<char> {
    seq!['l', 'e', 't']
}

/// The first position at or after `p` that holds no whitespace.
pub open spec fn skip_spaces(s: Seq<char>, p: int) -> int
    decreases s.len() - p,
{
    if 0 <= p < s.len() && is_space(s[p]) {
        skip_spaces(s, p + 1)
    } else {
        p
    }
}

/// The end of the run of letters that starts at `p`.
pub open spec fn letters_end(s: Seq<char>, p: int) -> int
    decreases s.len() - p,
{
    if 0 <= p < s.len() && is_letter(s[p]) {
        letters_end(s, p + 1)
    } else {
        p
    }
}

/// The end of the run of digits that starts at `p`.
pub open spec fn digits_end(s: Seq<char>, p: int) -> int
    decreases s.len() - p,
{
    if 0 <= p < s.len() && is_digit(s[p]) {
        digits_end(s, p + 1)
    } else {
        p
    }
}

/// The value of a run of decimal digits.
pub open spec fn digits_value(d: Seq<char>) -> int
    decreases d.len(),
{
    if d.len() == 0 {
        0
    } else {
        digits_value(d.drop_last()) * 10 + (d.last() as int - '0' as int)
    }
}

/// The token that starts at or after position `p` of `s`, and the position after it.
/// On an error the position is that of the offending text.
pub open spec fn scan(s: Seq<char>, p: int) -> (Result<SpecToken, LexError>, int) {
    let q = skip_spaces(s, p);
    if q >= s.len() {
        (Ok(SpecToken { kind: TokenType::Eof, text: Seq::empty() }), q)
    } else {
        let c = s[q];
        if is_letter(c) {
            let e = letters_end(s, q);
            let w = s.subrange(q, e);
            let kind = if w == let_word() {
                TokenType::Keyword
            } else {
                TokenType::Identifier
            };
            (Ok(SpecToken { kind, text: w }), e)
        } else if is_digit(c) {
            let e = digits_end(s, q);
            let w = s.subrange(q, e);
            if digits_value(w) <= i32::MAX {
                (Ok(SpecToken { kind: TokenType::Literal, text: w }), e)
            } else {
                (Err(LexError::MalformedLiteral), q)
            }
        } else if is_operator_char(c) {
            (Ok(SpecToken { kind: TokenType::Operator, text: seq![c] }), q + 1)
        } else if c == ';' {
            (Ok(SpecToken { kind: TokenType::Punctuation, text: seq![c] }), q + 1)
        } else {
            (Err(LexError::UnexpectedCharacter(c)), q)
        }
    }
}

pub proof fn lemma_skip_spaces(s: Seq<char>, p: int)
    requires
        0 <= p <= s.len(),
    ensures
        p <= skip_spaces(s, p) <= s.len(),
        forall|i: int| p <= i < skip_spaces(s, p) ==> is_space(s[i]),
        skip_spaces(s, p) < s.len() ==> !is_space(s[skip_spaces(s, p)]),
    decreases s.len() - p,
{
    if p < s.len() && is_space(s[p]) {
        lemma_skip_spaces(s, p + 1);
    }
}

pub proof fn lemma_letters_end(s: Seq<char>, p: int)
    requires
        0 <= p <= s.len(),
    ensures
        p <= letters_end(s, p) <= s.len(),
        forall|i: int| p <= i < letters_end(s, p) ==> is_letter(s[i]),
        letters_end(s, p) < s.len() ==> !is_letter(s[letters_end(s, p)]),
    decreases s.len() - p,
{
    if p < s.len() && is_letter(s[p]) {
        lemma_letters_end(s, p + 1);
    }
}

pub proof fn lemma_digits_end(s: Seq<char>, p: int)
    requires
        0 <= p <= s.len(),
    ensures
        p <= digits_end(s, p) <= s.len(),
        forall|i: int| p <= i < digits_end(s, p) ==> is_digit(s[i]),
        digits_end(s, p) < s.len() ==> !is_digit(s[digits_end(s, p)]),
    decreases s.len() - p,
{
    if p < s.len() && is_digit(s[p]) {
        lemma_digits_end(s, p + 1);
    }
}

/// A run of digits is worth at least as much as any of its prefixes, and never less than zero.
pub proof fn lemma_digits_value_prefix(d: Seq<char>, k: int)
    requires
        0 <= k <= d.len(),
        forall|i: int| 0 <= i < d.len() ==> is_digit(d[i]),
    ensures
        0 <= digits_value(d.take(k)) <= digits_value(d),
    decreases d.len(),
{
    if d.len() > 0 {
        if k == d.len() {
            assert(d.take(k) =~= d);
            lemma_digits_value_prefix(d.drop_last(), k - 1);
            assert(d.drop_last().take(k - 1) =~= d.drop_last());
        } else {
            lemma_digits_value_prefix(d.drop_last(), k);
            assert(d.drop_last().take(k) =~= d.take(k));
            lemma_digits_value_prefix(d.drop_last(), d.len() - 1);
            assert(d.drop_last().take(d.len() - 1) =~= d.drop_last());
        }
    }
}

/// A token other than the end of input lies strictly after the position the scan started from.
pub proof fn lemma_scan_advances(s: Seq<char>, p: int)
    requires
        0 <= p <= s.len(),
    ensures
        p <= scan(s, p).1 <= s.len(),
        scan(s, p).0 matches Ok(t) && t.kind != TokenType::Eof ==> p < scan(s, p).1,
{
    lemma_skip_spaces(s, p);
    let q = skip_spaces(s, p);
    if q < s.len() {
        lemma_letters_end(s, q);
        lemma_digits_end(s, q);
    }
}

pub proof fn lemma_letters_exact(s: Seq<char>, p: int, q: int)
    requires
        0 <= p <= q <= s.len(),
        forall|i: int| p <= i < q ==> is_letter(#[trigger] s[i]),
        q == s.len() || !is_letter(s[q]),
    ensures
        letters_end(s, p) == q,
    decreases q - p,
{
    if p < q {
        lemma_letters_exact(s, p + 1, q);
    }
}

pub proof fn lemma_digits_exact(s: Seq<char>, p: int, q: int)
    requires
        0 <= p <= q <= s.len(),
        forall|i: int| p <= i < q ==> is_digit(#[trigger] s[i]),
        q == s.len() || !is_digit(s[q]),
    ensures
        digits_end(s, p) == q,
    decreases q - p,
{
    if p < q {
        lemma_digits_exact(s, p + 1, q);
    }
}

/// A space before a token changes nothing but where the scan starts.
pub proof fn lemma_scan_space(s: Seq<char>, p: int)
    requires
        0 <= p < s.len(),
        is_space(s[p]),
    ensures
        scan(s, p) == scan(s, p + 1),
{
}

/// The word that fills `[p, q)` of `s`.
pub proof fn lemma_scan_word(s: Seq<char>, p: int, q: int)
    requires
        0 <= p < q <= s.len(),
        forall|i: int| p <= i < q ==> is_letter(#[trigger] s[i]),
        q == s.len() || !is_letter(s[q]),
    ensures
        scan(s, p) == (
            Ok::<SpecToken, LexError>(
                SpecToken {
                    kind: if s.subrange(p, q) == let_word() {
                        TokenType::Keyword
                    } else {
                        TokenType::Identifier
                    },
                    text: s.subrange(p, q),
                },
            ),
            q,
        ),
{
    assert(is_letter(s[p]));
    lemma_letters_exact(s, p, q);
}

/// The literal that fills `[p, q)` of `s`.
pub proof fn lemma_scan_literal(s: Seq<char>, p: int, q: int)
    requires
        0 <= p < q <= s.len(),
        forall|i: int| p <= i < q ==> is_digit(#[trigger] s[i]),
        q == s.len() || !is_digit(s[q]),
        digits_value(s.subrange(p, q)) <= i32::MAX,
    ensures
        scan(s, p) == (
            Ok::<SpecToken, LexError>(
                SpecToken { kind: TokenType::Literal, text: s.subrange(p, q) },
            ),
            q,
        ),
{
    assert(is_digit(s[p]));
    lemma_digits_exact(s, p, q);
}

/// The tokens from `p` on, where the token at `p` is not the end of input.
pub proof fn lemma_lex_step(s: Seq<char>, p: int)
    requires
        0 <= p <= s.len(),
        scan(s, p).0 matches Ok(t) && t.kind != TokenType::Eof,
    ensures
        lex_from(s, p) == prepend_tokens(seq![scan(s, p).0->Ok_0], lex_from(s, scan(s, p).1)),
{
    lemma_scan_advances(s, p);
}

/// The tokens of `s` from position `p` on, up to and including the end of input.
pub open spec fn lex_from(s: Seq<char>, p: int) -> Result<Seq<SpecToken>, LexError>
    decreases s.len() - p,
    when 0 <= p <= s.len()
{
    let (r, q) = scan(s, p);
    match r {
        Err(e) => Err(e),
        Ok(t) => {
            if t.kind == TokenType::Eof {
                Ok(seq![t])
            } else {
                proof {
                    lemma_scan_advances(s, p);
                }
                match lex_from(s, q) {
                    Ok(rest) => Ok(seq![t] + rest),
                    Err(e) => Err(e),
                }
            }
        },
    }
}

/// The tokens of a whole source text.
pub open spec fn lex(s: Seq<char>) -> Result<Seq<SpecToken>, LexError> {
    lex_from(s, 0)
}

/// `front` followed by the tokens of `r`, or the error of `r`.
pub open spec fn prepend_tokens(front: Seq<SpecToken>, r: Result<Seq<SpecToken>, LexError>) -> Result<
    Seq<SpecToken>,
    LexError,
> {
    match r {
        Ok(rest) => Ok(front + rest),
        Err(e) => Err(e),
    }
}

/// The token read, or the error, as values.
pub open spec fn token_result_view(r: Result<Token, LexError>) -> Result<SpecToken, LexError> {
    match r {
        Ok(t) => Ok(t@),
        Err(e) => Err(e),
    }
}

/// The tokens of a vector, as values.
pub open spec fn tokens_view(v: Seq<Token>) -> Seq<SpecToken> {
    v.map_values(|t: Token| t@)
}

/// The value a literal's text stands for: a non-empty run of digits worth at most `i32::MAX`.
pub open spec fn literal_value(d: Seq<char>) -> Option<i32> {
    if d.len() > 0 && (forall|i: int| 0 <= i < d.len() ==> is_digit(#[trigger] d[i]))
        && digits_value(d) <= i32::MAX {
        Some(digits_value(d) as i32)
    } else {
        None
    }
}

/// Reads the text of a literal token as an `i32`.
pub fn parse_literal(text: &str) -> (r: Option<i32>)
    ensures
        r == literal_value(text@),
{
    let d = chars_of(text);
    if d.len() == 0 {
        return None;
    }
    let mut value: u64 = 0;
    let mut i: usize = 0;
    while i < d.len()
        invariant
            i <= d.len(),
            d@ == text@,
            forall|k: int| 0 <= k < i ==> is_digit(#[trigger] d@[k]),
            value == digits_value(d@.take(i as int)),
            value <= i32::MAX,
        decreases d.len() - i,
    {
        let c = d[i];
        if !digit(c) {
            return None;
        }
        assert(d@.take(i + 1).drop_last() =~= d@.take(i as int));
        value = value * 10 + (c as u32 - '0' as u32) as u64;
        i = i + 1;
        if value > i32::MAX as u64 {
            proof {
                if forall|k: int| 0 <= k < d.len() ==> is_digit(#[trigger] d@[k]) {
                    lemma_digits_value_prefix(d@, i as int);
                }
            }
            return None;
        }
    }
    assert(d@.take(i as int) =~= d@);
    Some(value as i32)
}

/// The characters of `s`, in order.
pub fn chars_of(s: &str) -> (r: Vec<char>)
    ensures
        r@ == s@,
{
    let mut r: Vec<char> = Vec::new();
    for c in it: s.chars()
        invariant
            r@ == it.seq().take(it.index() as int),
    {
        r.push(c);
    }
    r
}

fn space(c: char) -> (b: bool)
    ensures
        b == is_space(c),
{
    c == ' ' || c == '\t' || c == '\n' || c == '\r' || c == '\x0C'
}

fn letter(c: char) -> (b: bool)
    ensures
        b == is_letter(c),
{
    ('a' <= c && c <= 'z') || ('A' <= c && c <= 'Z')
}

fn digit(c: char) -> (b: bool)
    ensures
        b == is_digit(c),
{
    '0' <= c && c <= '9'
}

/// Reads a source text one token at a time.
pub struct Lexer {
    input: String,
    chars: Vec<char>,
    position: usize,
}

impl Lexer {
    /// The text being read.
    pub closed spec fn source(&self) -> Seq<char> {
        self.chars@
    }

    /// Where the next token is looked for.
    pub closed spec fn pos(&self) -> int {
        self.position as int
    }

    /// The characters kept match the input, and the cursor stands within them.
    pub closed spec fn wf(&self) -> bool {
        &&& self.input@ == self.chars@
        &&& self.position <= self.chars.len()
    }

    pub fn new(input: &str) -> (r: Lexer)
        ensures
            r.wf(),
            r.source() == input@,
            r.pos() == 0,
    {
        Lexer { input: input.to_string(), chars: chars_of(input), position: 0 }
    }

    /// Reads the next token; at the end of the input, and on every call after it, an `Eof` token.
    pub fn next_token(&mut self) -> (r: Result<Token, LexError>)
        requires
            old(self).wf(),
        ensures
            final(self).wf(),
            0 <= final(self).pos() <= final(self).source().len(),
            final(self).source() == old(self).source(),
            scan(old(self).source(), old(self).pos()) == (token_result_view(r), final(self).pos()),
    {
        self.skip_whitespace();
        if self.position >= self.chars.len() {
            return Ok(Token { token_type: TokenType::Eof, lexeme: String::new() });
        }
        let c = self.chars[self.position];
        if letter(c) {
            return Ok(self.lex_identifier_or_keyword());
        }
        if digit(c) {
            return self.lex_number();
        }
        if c == '=' || c == '+' || c == '-' || c == '*' || c == '/' || c == ';' {
            return Ok(self.lex_operator_or_punctuation());
        }
        Err(LexError::UnexpectedCharacter(c))
    }

    /// Reads every remaining token, up to and including the `Eof` token.
    pub fn tokenize(&mut self) -> (r: Result<Vec<Token>, LexError>)
        requires
            old(self).wf(),
        ensures
            final(self).wf(),
            0 <= final(self).pos() <= final(self).source().len(),
            final(self).source() == old(self).source(),
            lex_from(old(self).source(), old(self).pos()) == match r {
                Ok(v) => Ok(tokens_view(v@)),
                Err(e) => Err::<Seq<SpecToken>, LexError>(e),
            },
    {
        let ghost s = self.chars@;
        let ghost start = self.pos();
        let mut out: Vec<Token> = Vec::new();
        assert(prepend_tokens(tokens_view(out@), lex_from(s, start)) =~= lex_from(s, start)) by {
            match lex_from(s, start) {
                Ok(rest) => {
                    assert(tokens_view(out@) + rest =~= rest);
                },
                Err(e) => {},
            }
        }
        loop
            invariant
                self.wf(),
                self.source() == s,
                s == old(self).source(),
                start == old(self).pos(),
                lex_from(s, start) == prepend_tokens(tokens_view(out@), lex_from(s, self.pos())),
            decreases s.len() - self.pos(),
        {
            let ghost p = self.pos();
            proof {
                lemma_scan_advances(s, p);
            }
            let t = self.next_token();
            match t {
                Err(e) => {
                    return Err(e);
                },
                Ok(tok) => {
                    let eof = tok.token_type == TokenType::Eof;
                    let ghost before = tokens_view(out@);
                    out.push(tok);
                    assert(tokens_view(out@) =~= before.push(tok@));
                    if eof {
                        assert(before + seq![tok@] =~= tokens_view(out@));
                        return Ok(out);
                    }
                    assert forall|rest: Seq<SpecToken>| #[trigger] (before + (seq![tok@] + rest))
                        == tokens_view(out@) + rest by {
                        assert(before + (seq![tok@] + rest) =~= tokens_view(out@) + rest);
                    }
                },
            }
        }
    }

    fn skip_whitespace(&mut self)
        requires
            old(self).wf(),
        ensures
            final(self).wf(),
            final(self).input == old(self).input,
            final(self).chars == old(self).chars,
            final(self).position == skip_spaces(old(self).chars@, old(self).position as int),
    {
        proof {
            lemma_skip_spaces(self.chars@, self.position as int);
        }
        let ghost start = self.position as int;
        while self.position < self.chars.len() && space(self.chars[self.position])
            invariant
                self.wf(),
                self.input == old(self).input,
                self.chars == old(self).chars,
                start <= self.position,
                skip_spaces(self.chars@, start) == skip_spaces(self.chars@, self.position as int),
            decreases self.chars.len() - self.position,
        {
            self.position = self.position + 1;
        }
    }

    /// The text between two positions, as a `String`.
    fn text(&self, start: usize, end: usize) -> (r: String)
        requires
            self.wf(),
            start <= end <= self.chars.len(),
        ensures
            r@ == self.chars@.subrange(start as int, end as int),
    {
        self.input.as_str().substring_char(start, end).to_string()
    }

    fn lex_identifier_or_keyword(&mut self) -> (r: Token)
        requires
            old(self).wf(),
            old(self).position < old(self).chars.len(),
            is_letter(old(self).chars@[old(self).position as int]),
            skip_spaces(old(self).chars@, old(self).position as int) == old(self).position,
        ensures
            final(self).wf(),
            final(self).source() == old(self).source(),
            scan(old(self).source(), old(self).pos()) == (token_result_view(Ok(r)), final(self).pos()),
    {
        let start = self.position;
        proof {
            lemma_letters_end(self.chars@, start as int);
        }
        while self.position < self.chars.len() && letter(self.chars[self.position])
            invariant
                self.wf(),
                self.input == old(self).input,
                self.chars == old(self).chars,
                start <= self.position,
                letters_end(self.chars@, start as int) == letters_end(
                    self.chars@,
                    self.position as int,
                ),
            decreases self.chars.len() - self.position,
        {
            self.position = self.position + 1;
        }
        let lexeme = self.text(start, self.position);
        let is_let = self.position - start == 3 && self.chars[start] == 'l' && self.chars[start
            + 1] == 'e' && self.chars[start + 2] == 't';
        proof {
            let w = self.chars@.subrange(start as int, self.position as int);
            if is_let {
                assert(w =~= let_word());
            } else if w.len() == 3 {
                assert(w[0] != 'l' || w[1] != 'e' || w[2] != 't');
                assert(w != let_word());
            } else {
                assert(w.len() != let_word().len());
            }
        }
        let token_type = if is_let {
            TokenType::Keyword
        } else {
            TokenType::Identifier
        };
        Token { token_type, lexeme }
    }

    fn lex_number(&mut self) -> (r: Result<Token, LexError>)
        requires
            old(self).wf(),
            old(self).position < old(self).chars.len(),
            is_digit(old(self).chars@[old(self).position as int]),
            skip_spaces(old(self).chars@, old(self).position as int) == old(self).position,
        ensures
            final(self).wf(),
            final(self).source() == old(self).source(),
            scan(old(self).source(), old(self).pos()) == (token_result_view(r), final(self).pos()),
    {
        let start = self.position;
        let ghost s = self.chars@;
        proof {
            lemma_digits_end(s, start as int);
            lemma_letters_end(s, start as int);
        }
        let mut value: u64 = 0;
        let mut end = start;
        while end < self.chars.len() && digit(self.chars[end])
            invariant
                self.wf(),
                self.chars@ == s,
                self.position == start,
                start <= end <= s.len(),
                digits_end(s, start as int) == digits_end(s, end as int),
                value == digits_value(s.subrange(start as int, end as int)),
                value <= i32::MAX,
            decreases s.len() - end,
        {
            let d = (self.chars[end] as u32 - '0' as u32) as u64;
            assert(s.subrange(start as int, end + 1).drop_last() =~= s.subrange(
                start as int,
                end as int,
            ));
            value = value * 10 + d;
            end = end + 1;
            assert(value == digits_value(s.subrange(start as int, end as int)));
            assert(digits_end(s, start as int) == digits_end(s, end as int));
            if value > i32::MAX as u64 {
                proof {
                    lemma_digits_end(s, start as int);
                    let e = digits_end(s, start as int);
                    let w = s.subrange(start as int, e);
                    lemma_digits_end(s, end as int);
                    assert forall|i: int| 0 <= i < w.len() implies is_digit(#[trigger] w[i]) by {
                        assert(is_digit(s[start + i]));
                    }
                    lemma_digits_value_prefix(w, end - start);
                    assert(w.take(end - start) =~= s.subrange(start as int, end as int));
                }
                return Err(LexError::MalformedLiteral);
            }
        }
        self.position = end;
        let lexeme = self.text(start, end);
        Ok(Token { token_type: TokenType::Literal, lexeme })
    }

    fn lex_operator_or_punctuation(&mut self) -> (r: Token)
        requires
            old(self).wf(),
            old(self).position < old(self).chars.len(),
            is_operator_char(old(self).chars@[old(self).position as int]) || old(
                self,
            ).chars@[old(self).position as int] == ';',
            skip_spaces(old(self).chars@, old(self).position as int) == old(self).position,
        ensures
            final(self).wf(),
            final(self).source() == old(self).source(),
            scan(old(self).source(), old(self).pos()) == (token_result_view(Ok(r)), final(self).pos()),
    {
        let start = self.position;
        let current = self.chars[start];
        proof {
            lemma_letters_end(self.chars@, start as int);
            lemma_digits_end(self.chars@, start as int);
        }
        self.position = start + 1;
        let lexeme = self.text(start, start + 1);
        proof {
            assert(lexeme@ =~= seq![current]);
        }
        let token_type = if current == ';' {
            TokenType::Punctuation
        } else {
            TokenType::Operator
        };
        Token { token_type, lexeme }
    }
}

} // verus!
