use vstd::prelude::*;

use crate::ir::context::IrCtx;
use crate::ir::node::Span;

pub mod expression;
pub mod grammar;
pub mod identifier;
pub mod module;
pub mod statement;
pub mod type_signature;

verus! {

/// The source text that the parser reads.
#[derive(Debug)]
pub struct ParserContext {
    pub source: Vec<char>,
}

/// What the parser expected where it stopped.
#[derive(Debug, Clone, Copy, PartialEq, Eq, Structural)]
pub enum ParserErrorKind {
    Identifier,
    Keyword,
    Token,
    Expression,
    Statement,
    TypeSignature,
    Literal,
    EscapeBlock,
    EndOfInput,
    /// The input is too long for its positions to be counted.
    TooLarge,
}

/// A parse failure at a character position.
#[derive(Debug, Clone, Copy)]
pub struct ParserError {
    pub offset: usize,
    pub kind: ParserErrorKind,
}

/// The kinds of brackets.
#[derive(Debug, Clone, Copy, PartialEq, Eq, Structural)]
pub enum BracketType {
    Round,
    Square,
    Curly,
    Diamond,
}

pub open spec fn spec_open(b: BracketType) -> char {
    match b {
        BracketType::Round => '(',
        BracketType::Square => '[',
        BracketType::Curly => '{',
        BracketType::Diamond => '<',
    }
}

pub open spec fn spec_close(b: BracketType) -> char {
    match b {
        BracketType::Round => ')',
        BracketType::Square => ']',
        BracketType::Curly => '}',
        BracketType::Diamond => '>',
    }
}

impl BracketType {
    /// The opening bracket.
    pub fn open(&self) -> (r: char)
        ensures
            r == spec_open(*self),
    {
        match self {
            BracketType::Round => '(',
            BracketType::Square => '[',
            BracketType::Curly => '{',
            BracketType::Diamond => '<',
        }
    }

    /// The closing bracket.
    pub fn close(&self) -> (r: char)
        ensures
            r == spec_close(*self),
    {
        match self {
            BracketType::Round => ')',
            BracketType::Square => ']',
            BracketType::Curly => '}',
            BracketType::Diamond => '>',
        }
    }
}

/// The result of a parser: the position after what it read, and what it read.
pub type Res<O> = Result<(usize, O), ParserError>;

/// Whitespace as the parser skips it: spaces, tabs, carriage returns, newlines.
pub open spec fn is_space(c: char) -> bool {
    c == ' ' || c == '\t' || c == '\r' || c == '\n'
}

/// The first position at or after `i` that holds no whitespace.
pub open spec fn ws_end(s: Seq<char>, i: int) -> int
    decreases s.len() - i,
{
    if i < 0 || i >= s.len() || !is_space(s[i]) {
        i
    } else {
        ws_end(s, i + 1)
    }
}

/// Skipping whitespace skips spaces, tabs, carriage returns and newlines,
/// one after the other: at any of them it goes on past it, and it stops at
/// any other character.
pub proof fn lemma_ws_skips_blanks(s: Seq<char>, i: int)
    requires
        0 <= i < s.len(),
    ensures
        (s[i] == ' ' || s[i] == '\t' || s[i] == '\r' || s[i] == '\n') ==> ws_end(s, i) == ws_end(s, i + 1) && ws_end(s, i) > i,
        !(s[i] == ' ' || s[i] == '\t' || s[i] == '\r' || s[i] == '\n') ==> ws_end(s, i) == i,
{
    lemma_ws_end_bounds(s, i + 1);
}

pub proof fn lemma_ws_end_bounds(s: Seq<char>, i: int)
    requires
        0 <= i <= s.len(),
    ensures
        i <= ws_end(s, i) <= s.len(),
        forall|k: int| i <= k < ws_end(s, i) ==> is_space(#[trigger] s[k]),
        ws_end(s, i) == s.len() || !is_space(s[ws_end(s, i)]),
    decreases s.len() - i,
{
    if i < s.len() && is_space(s[i]) {
        lemma_ws_end_bounds(s, i + 1);
    }
}

impl ParserContext {
    /// A parser context that reads `input`.
    pub fn new(input: &str) -> (r: ParserContext)
        ensures
            r.source@ == input@,
    {
        ParserContext { source: crate::ir::text::str_chars(input) }
    }

    pub open spec fn len(&self) -> int {
        self.source@.len() as int
    }

    /// The source leaves room for positions past its end.
    pub open spec fn wf(&self) -> bool {
        self.source@.len() < usize::MAX - 1
    }

    /// Skips whitespace (which may be none).
    pub fn ws0(&self, i: usize) -> (r: usize)
        requires
            i <= self.source@.len(),
        ensures
            r == ws_end(self.source@, i as int),
            i <= r <= self.source@.len(),
    {
        proof {
            lemma_ws_end_bounds(self.source@, i as int);
        }
        let mut j = i;
        while j < self.source.len() && (self.source[j] == ' ' || self.source[j] == '\t' || self.source[j] == '\r'
            || self.source[j] == '\n')
            invariant
                i <= j <= self.source@.len(),
                ws_end(self.source@, i as int) == ws_end(self.source@, j as int),
            decreases self.source@.len() - j,
        {
            j = j + 1;
        }
        j
    }

    /// Skips at least one whitespace character.
    pub fn ws1(&self, i: usize) -> (r: Res<()>)
        requires
            self.wf(),
            i <= self.source@.len(),
        ensures
            r matches Err(e) ==> e.kind == ParserErrorKind::Token,
            r matches Ok((j, _)) ==> j == ws_end(self.source@, i as int) && i < j <= self.source@.len(),
            r is Ok <==> (i < self.source@.len() && is_space(self.source@[i as int])),
    {
        let j = self.ws0(i);
        proof {
            if i < self.source@.len() && is_space(self.source@[i as int]) {
                lemma_ws_end_bounds(self.source@, i + 1);
            }
        }
        if j == i {
            Err(ParserError { offset: i, kind: ParserErrorKind::Token })
        } else {
            Ok((j, ()))
        }
    }

    /// Whether the text at `i` starts with `t`.
    pub fn starts_with(&self, i: usize, t: &Vec<char>) -> (r: bool)
        requires
            self.wf(),
            i <= self.source@.len(),
        ensures
            r == (i + t@.len() <= self.source@.len() && self.source@.subrange(i as int, i + t@.len()) == t@),
    {
        if t.len() > self.source.len() - i {
            return false;
        }
        let mut k: usize = 0;
        while k < t.len()
            invariant
                self.wf(),
                i + t@.len() <= self.source@.len(),
                k <= t@.len(),
                forall|m: int| 0 <= m < k ==> self.source@[i + m] == t@[m],
            decreases t@.len() - k,
        {
            if self.source[i + k] != t[k] {
                assert(self.source@.subrange(i as int, i + t@.len())[k as int] != t@[k as int]);
                return false;
            }
            k = k + 1;
        }
        assert(self.source@.subrange(i as int, i + t@.len()) =~= t@);
        true
    }

    /// Reads exactly `t`.
    pub fn tag(&self, i: usize, t: &Vec<char>) -> (r: Res<()>)
        requires
            self.wf(),
            i <= self.source@.len(),
        ensures
            r matches Err(e) ==> e.kind == ParserErrorKind::Token && e.offset == i,
            r is Ok <==> (i + t@.len() <= self.source@.len() && self.source@.subrange(i as int, i + t@.len()) == t@),
            r matches Ok((j, _)) ==> j == i + t@.len(),
    {
        if self.starts_with(i, t) {
            Ok((i + t.len(), ()))
        } else {
            Err(ParserError { offset: i, kind: ParserErrorKind::Token })
        }
    }

    /// Reads the character `c`.
    pub fn char_tag(&self, i: usize, c: char) -> (r: Res<()>)
        requires
            self.wf(),
            i <= self.source@.len(),
        ensures
            r matches Err(e) ==> e.kind == ParserErrorKind::Token,
            r is Ok <==> (i < self.source@.len() && self.source@[i as int] == c),
            r matches Ok((j, _)) ==> j == i + 1,
    {
        if i < self.source.len() && self.source[i] == c {
            Ok((i + 1, ()))
        } else {
            Err(ParserError { offset: i, kind: ParserErrorKind::Token })
        }
    }

    /// Reads the character `c` with optional whitespace around it.
    pub fn spaced_char(&self, i: usize, c: char) -> (r: Res<()>)
        requires
            self.wf(),
            i <= self.source@.len(),
        ensures
            r matches Err(e) ==> e.kind == ParserErrorKind::Token,
            r is Ok <==> (ws_end(self.source@, i as int) < self.source@.len()
                && self.source@[ws_end(self.source@, i as int)] == c),
            r matches Ok((j, _)) ==> j == ws_end(self.source@, ws_end(self.source@, i as int) + 1) && i < j
                <= self.source@.len(),
            r is Ok <==> spec_spaced_char(self.source@, i as int, c) is Some,
            r matches Ok((j, _)) ==> spec_spaced_char(self.source@, i as int, c) == Some(j as int),
    {
        proof { lemma_ws_end_bounds(self.source@, i as int); }
        let a = self.ws0(i);
        let (b, _) = self.char_tag(a, c)?;
        let j = self.ws0(b);
        Ok((j, ()))
    }

    /// Reads `t` with optional whitespace around it.
    pub fn spaced_tag(&self, i: usize, t: &Vec<char>) -> (r: Res<()>)
        requires
            self.wf(),
            i <= self.source@.len(),
            t@.len() > 0,
        ensures
            r matches Err(e) ==> e.kind == ParserErrorKind::Token,
            r is Ok <==> spec_spaced_tag(self.source@, i as int, t@) is Some,
            r matches Ok((j, _)) ==> Some(j as int) == spec_spaced_tag(self.source@, i as int, t@) && i < j
                <= self.source@.len(),
    {
        proof {
            lemma_ws_end_bounds(self.source@, i as int);
            let a = ws_end(self.source@, i as int);
            if a + t@.len() <= self.source@.len() {
                lemma_ws_end_bounds(self.source@, a + t@.len());
            }
        }
        let a = self.ws0(i);
        let (b, _) = self.tag(a, t)?;
        let j = self.ws0(b);
        Ok((j, ()))
    }

    /// The span of the text `start..end`, with the line and column of `start`.
    pub fn span(&self, start: usize, end: usize) -> (r: Span)
        requires
            self.wf(),
            start <= end <= self.source@.len(),
        ensures
            r.start == start,
            r.end == end,
            r.line == spec_line(self.source@, start as int),
            r.offset == spec_column(self.source@, start as int),
    {
        let mut line: usize = 1;
        let mut column: usize = 1;
        let mut k: usize = 0;
        while k < start
            invariant
                k <= start <= self.source@.len(),
                self.wf(),
                line == spec_line(self.source@, k as int),
                column == spec_column(self.source@, k as int),
                line <= k + 1,
                column <= k + 1,
            decreases start - k,
        {
            if self.source[k] == '\n' {
                line = line + 1;
                column = 1;
            } else {
                column = column + 1;
            }
            k = k + 1;
        }
        Span { start, end, line, offset: column }
    }
}

/// `c` at the first position at or after `i` that holds no whitespace: the
/// position after it and the whitespace that follows it.
pub open spec fn spec_spaced_char(s: Seq<char>, i: int, c: char) -> Option<int> {
    let a = ws_end(s, i);
    if 0 <= a < s.len() && s[a] == c {
        Some(ws_end(s, a + 1))
    } else {
        None
    }
}

/// `k` lies after `i`, within the source `s`.
pub open spec fn advances(s: Seq<char>, i: int, k: int) -> bool {
    i < k <= s.len()
}

/// `t` at the first position at or after `i` that holds no whitespace: the
/// position after it and the whitespace that follows it.
pub open spec fn spec_spaced_tag(s: Seq<char>, i: int, t: Seq<char>) -> Option<int> {
    let a = ws_end(s, i);
    if a + t.len() <= s.len() && s.subrange(a, a + t.len()) == t {
        Some(ws_end(s, a + t.len()))
    } else {
        None
    }
}

/// The line (counted from 1) of position `i`.
pub open spec fn spec_line(s: Seq<char>, i: int) -> int
    decreases i,
{
    if i <= 0 {
        1
    } else if s[i - 1] == '\n' {
        spec_line(s, i - 1) + 1
    } else {
        spec_line(s, i - 1)
    }
}

/// The column (counted from 1) of position `i`.
pub open spec fn spec_column(s: Seq<char>, i: int) -> int
    decreases i,
{
    if i <= 0 {
        1
    } else if s[i - 1] == '\n' {
        1
    } else {
        spec_column(s, i - 1) + 1
    }
}

/// The text of a span.
pub open spec fn fragment(s: Seq<char>, span: Span) -> Seq<char> {
    s.subrange(span.start as int, span.end as int)
}

/// The conditions under which every parser runs: a well formed program and a
/// position inside the source.
pub open spec fn parse_pre(p: &ParserContext, ctx: &IrCtx, i: usize) -> bool {
    &&& ctx.wf()
    &&& i <= p.source@.len()
    &&& p.wf()
}

/// What every parser keeps: the program stays well formed and only grows.
pub open spec fn parse_post(ctx_new: &IrCtx, ctx_old: &IrCtx) -> bool {
    &&& ctx_new.wf()
    &&& IrCtx::extends(ctx_new, ctx_old)
}

/// Parses a whole program.
pub fn parse_ast(input: &str) -> (r: Result<module::AST, ParserError>)
    ensures
        r matches Ok(ast) ==> ast.wf() && statement::stmts_in_order(ast.ctx.nodes@, ast.stmts@, ws_end(input@, 0),
            input@.len() as int),
        input@.len() >= usize::MAX - 1 ==> (r matches Err(e) && e.kind == ParserErrorKind::TooLarge),
        r is Ok ==> grammar::g_program(input@),
        r matches Ok(ast) ==> statement::stmts_at(ast.ctx.nodes@, ast.stmts@, grammar::g_stmt_spans(input@, ws_end(input@, 0))),
        r matches Ok(ast) ==> statement::stmts_read(input@, ast.ctx.nodes@, ast.stmts@),
        r matches Ok(ast) ==> statement::stmts_typed(&ast.ctx, input@, ast.stmts@),
        r matches Err(e) && e.kind != ParserErrorKind::TooLarge ==> !grammar::g_program(input@),
        r matches Err(e) && e.kind == ParserErrorKind::TooLarge ==> input@.len() >= usize::MAX - 1,
        input@.len() < usize::MAX - 1 && grammar::g_program(input@) ==> r is Ok,
{
    let p = ParserContext::new(input);
    module::module(&p)
}

} // verus!

verus! {

/// Every reference of `v` is an expression node.
pub open spec fn exprs_valid(nodes: Seq<crate::ir::node::Node>, v: Seq<usize>) -> bool {
    forall|k: int| 0 <= k < v.len() ==> crate::ir::node::is_expr(nodes, #[trigger] v[k] as int)
}

/// Every reference of `v` is a statement node.
pub open spec fn stmts_valid(nodes: Seq<crate::ir::node::Node>, v: Seq<usize>) -> bool {
    forall|k: int| 0 <= k < v.len() ==> crate::ir::node::is_stmt(nodes, #[trigger] v[k] as int)
}

} // verus!
