use vstd::prelude::*;

use crate::ir::context::IrCtx;
use crate::ir::node::NodeRef;

use super::grammar::{g_program, g_stmt_spans};
use super::{ParserContext, ParserError, ParserErrorKind};

verus! {

/// A parsed program: its nodes and the statements of its top level.
#[derive(Debug)]
pub struct AST {
    pub ctx: IrCtx,
    pub stmts: Vec<NodeRef>,
}

impl AST {
    pub open spec fn wf(&self) -> bool {
        &&& self.ctx.wf()
        &&& super::stmts_valid(self.ctx.nodes@, self.stmts@)
    }
}

/// A whole program: statements, with optional whitespace around them, up to
/// the end of the input.
pub fn module(p: &ParserContext) -> (r: Result<AST, ParserError>)
    ensures
        r matches Ok(ast) ==> ast.wf() && super::statement::stmts_in_order(ast.ctx.nodes@, ast.stmts@,
            super::ws_end(p.source@, 0), p.source@.len() as int),
        p.source@.len() >= usize::MAX - 1 ==> (r matches Err(e) && e.kind == ParserErrorKind::TooLarge),
        r is Ok ==> g_program(p.source@),
        r matches Ok(ast) ==> super::statement::stmts_at(ast.ctx.nodes@, ast.stmts@, g_stmt_spans(p.source@,
            super::ws_end(p.source@, 0))),
        r matches Ok(ast) ==> super::statement::stmts_read(p.source@, ast.ctx.nodes@, ast.stmts@),
        r matches Ok(ast) ==> super::statement::stmts_typed(&ast.ctx, p.source@, ast.stmts@),
        r matches Err(e) && e.kind != ParserErrorKind::TooLarge ==> !g_program(p.source@),
        r matches Err(e) && e.kind == ParserErrorKind::TooLarge ==> p.source@.len() >= usize::MAX - 1,
        p.source@.len() < usize::MAX - 1 && g_program(p.source@) ==> r is Ok,
{
    if p.source.len() >= usize::MAX - 1 {
        return Err(ParserError { offset: 0, kind: ParserErrorKind::TooLarge });
    }
    let mut ctx = IrCtx::new();
    let a = p.ws0(0);
    let (b, stmts) = p.statement(&mut ctx, a)?;
    let c = p.ws0(b);
    if c < p.source.len() {
        return Err(ParserError { offset: c, kind: ParserErrorKind::EndOfInput });
    }
    Ok(AST { ctx, stmts })
}

} // verus!
