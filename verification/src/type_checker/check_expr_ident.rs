use vstd::prelude::*;

use crate::ir::context::IrCtx;
use crate::ir::node::{Ident, KeyView, NodeRef};
use crate::ir::types::TypeEvalError;
use crate::symbols::symbol_table::symbol_table_zipper::{zipper_lookup, zipper_ok, SymbolTableZipper};
use crate::symbols::symbol_table::{arena_ident, arena_items, get_symbol, symbol_item, SymbolValueItem};

use super::TypeCheckerError;

verus! {

/// Whether a symbol item stands for something that is no value: a builtin
/// type or a struct declaration.
pub open spec fn non_expr_item(item: SymbolValueItem) -> bool {
    item is BuiltinType || item is StructDecl
}

/// What checking the name `ident` used as the expression at node `expr`
/// gives: an error where it names nothing visible, or a builtin type or a
/// struct; success otherwise.
pub open spec fn ident_check_outcome(ctx: &IrCtx, symbols: SymbolTableZipper, expr: NodeRef, ident: Ident, r: Result<(), TypeCheckerError>) -> bool {
    let found = zipper_lookup(ctx.nodes@, arena_items(ctx.symbols), symbols, KeyView::Named(ident.name@));
    &&& (found is None <==> r matches Err(TypeCheckerError::TypeEval(TypeEvalError::UnknownIdent(_))))
    &&& ((found matches Some(s) && non_expr_item(symbol_item(arena_items(ctx.symbols), s)))
        <==> r matches Err(TypeCheckerError::IdentNotExpression(_, _)))
    &&& (r matches Err(TypeCheckerError::IdentNotExpression(e, s)) ==> e == expr && found == Some(s))
    &&& (r matches Err(TypeCheckerError::TypeEval(TypeEvalError::UnknownIdent(n))) ==> n.name@ == ident.name@)
    &&& (r is Err ==> (r matches Err(TypeCheckerError::TypeEval(TypeEvalError::UnknownIdent(_)))
        || r matches Err(TypeCheckerError::IdentNotExpression(_, _))))
}

/// Checks that the name `ident`, used as the expression at node `expr`,
/// refers to a value.
pub fn check_expr_ident(ctx: &IrCtx, symbols: &SymbolTableZipper, expr: NodeRef, ident: &Ident) -> (r: Result<(), TypeCheckerError>)
    requires
        ctx.wf(),
        zipper_ok(ctx.nodes@, arena_items(ctx.symbols), arena_ident(ctx.symbols), *symbols),
    ensures
        ident_check_outcome(ctx, *symbols, expr, *ident, r),
{
    let key = ident.key();
    let sym = match symbols.lookup(ctx, &key) {
        Some(s) => s,
        None => { return Err(TypeCheckerError::TypeEval(TypeEvalError::UnknownIdent(ident.copy()))); },
    };
    let item = match get_symbol(&ctx.symbols, sym.id) {
        Some(it) => it,
        None => { return unreached(); },
    };
    let non_expr = match item {
        SymbolValueItem::BuiltinType(_) => true,
        SymbolValueItem::StructDecl(_) => true,
        _ => false,
    };
    if non_expr {
        Err(TypeCheckerError::IdentNotExpression(expr, sym))
    } else {
        Ok(())
    }
}

} // verus!
