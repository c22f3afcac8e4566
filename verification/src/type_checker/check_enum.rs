use vstd::prelude::*;

use crate::ir::context::IrCtx;
use crate::ir::node::{is_expr, Expr, Ident, Node, NodeRef};
use crate::ir::text::{copy_chars};
use crate::ir::types::TypeEvalError;
use crate::symbols::symbol_resolver::{enum_decl_of, find_value, lookup_enum, value_pos};
use crate::symbols::symbol_table::symbol_table_zipper::{zipper_ok, SymbolTableZipper};
use crate::symbols::symbol_table::{arena_ident, arena_items};

use super::TypeCheckerError;

verus! {

/// What checking the enum initialization at node `enm_init` gives: success
/// exactly when its enum has the named value and the value takes as many
/// items as are given.
pub open spec fn enum_check_outcome(ctx: &IrCtx, symbols: SymbolTableZipper, enm_init: NodeRef, r: Result<(), TypeCheckerError>) -> bool {
    let x = ctx.nodes@[enm_init as int]->Expr_0;
    let d = enum_decl_of(ctx.nodes@, arena_items(ctx.symbols), symbols, x->EnumInit_enum_name@);
    &&& (r is Ok <==> (d matches Some(dd) && {
        let k = value_pos(ctx.nodes@[dd as int]->Enum_0.values@, x->EnumInit_enum_value.name@);
        k >= 0 && ctx.nodes@[dd as int]->Enum_0.values@[k].items@.len() == x->EnumInit_items@.len()
    }))
    &&& (r matches Err(TypeCheckerError::EnumInitArgCountMismatch(e, k)) ==> (e == enm_init
        && (d matches Some(dd) && k == value_pos(ctx.nodes@[dd as int]->Enum_0.values@, x->EnumInit_enum_value.name@))))
    &&& (r is Err ==> (r matches Err(TypeCheckerError::TypeEval(TypeEvalError::Lookup(_)))
        || r matches Err(TypeCheckerError::EnumInitArgCountMismatch(_, _))))
    &&& ((r matches Err(TypeCheckerError::TypeEval(TypeEvalError::Lookup(n)))) <==> (d is None || (d matches Some(dd)
        && value_pos(ctx.nodes@[dd as int]->Enum_0.values@, x->EnumInit_enum_value.name@) < 0)))
    &&& (r matches Err(TypeCheckerError::TypeEval(TypeEvalError::Lookup(n))) ==> n.name@ == x->EnumInit_enum_name@
        && n.span == ctx.nodes@[enm_init as int]->Expr_1)
}

/// Checks that the enum initialization at node `enm_init` gives its enum
/// value as many items as the value declares.
pub fn check_enum_init(ctx: &IrCtx, symbols: &SymbolTableZipper, enm_init: NodeRef) -> (r: Result<(), TypeCheckerError>)
    requires
        ctx.wf(),
        zipper_ok(ctx.nodes@, arena_items(ctx.symbols), arena_ident(ctx.symbols), *symbols),
        is_expr(ctx.nodes@, enm_init as int),
        ctx.nodes@[enm_init as int]->Expr_0 is EnumInit,
    ensures
        enum_check_outcome(ctx, *symbols, enm_init, r),
{
    let (name, value, nitems, span) = match &ctx.nodes[enm_init] {
        Node::Expr(Expr::EnumInit { enum_name, enum_value, items }, span) => (copy_chars(enum_name), enum_value.copy(), items.len(), *span),
        _ => { return unreached(); },
    };
    let d = match lookup_enum(ctx, symbols, &name) {
        Some(d) => d,
        None => { return Err(TypeCheckerError::TypeEval(TypeEvalError::Lookup(Ident { name, span }))); },
    };
    let k = match find_value(ctx, d, &value.name) {
        Some(k) => k,
        None => { return Err(TypeCheckerError::TypeEval(TypeEvalError::Lookup(Ident { name, span }))); },
    };
    let n = match &ctx.nodes[d] {
        Node::Enum(en) => en.values[k].items.len(),
        _ => { return unreached(); },
    };
    if n != nitems {
        return Err(TypeCheckerError::EnumInitArgCountMismatch(enm_init, k));
    }
    Ok(())
}

} // verus!
