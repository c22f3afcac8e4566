use vstd::prelude::*;

use crate::ir::context::IrCtx;
use crate::ir::node::{is_expr, Expr, Node, NodeRef, StructInitValue};
use crate::ir::text::chars_eq;
use crate::ir::typed::attr_pos;
use crate::ir::types::TypeEvalError;
use crate::symbols::symbol_resolver::{find_attr, lookup_struct};
use crate::symbols::symbol_table::symbol_table_zipper::{zipper_ok, SymbolTableZipper};
use crate::symbols::symbol_table::{arena_ident, arena_items};
use crate::ir::typed::struct_decl_of;

use super::{StructTypeError, SymbolResolutionError, TypeCheckerError};

verus! {

/// Whether one of the initialized values is named `n`.
pub open spec fn value_named(values: Seq<StructInitValue>, n: Seq<char>) -> bool {
    exists|j: int| 0 <= j < values.len() && (#[trigger] values[j]).name.name@ == n
}

/// What checking the struct initialization at node `st_init` gives:
/// success exactly when its struct exists, every attribute without a default
/// value is given and every given name is an attribute; the error says which
/// of these fails: the first attribute not given, in the struct's order,
/// before the first name that is no attribute, in the order given.
pub open spec fn struct_check_outcome(ctx: &IrCtx, symbols: SymbolTableZipper, st_init: NodeRef, r: Result<(), TypeCheckerError>) -> bool {
    let x = ctx.nodes@[st_init as int]->Expr_0;
    let values = x->StructInit_values@;
    let d = struct_decl_of(ctx.nodes@, arena_items(ctx.symbols), symbols, x->StructInit_struct_name.name@);
    &&& (d is None <==> r matches Err(TypeCheckerError::SymbolResolutionError(_)))
    &&& (r is Ok <==> (d matches Some(dd) && {
        let attrs = ctx.nodes@[dd as int]->Struct_0.attrs@;
        &&& forall|k: int| 0 <= k < attrs.len() && (#[trigger] attrs[k]).default_value is None
            ==> value_named(values, attrs[k].name.name@)
        &&& forall|j: int| 0 <= j < values.len() ==> attr_pos(attrs, (#[trigger] values[j]).name.name@) >= 0
    }))
    &&& (r matches Err(TypeCheckerError::StructError(s, StructTypeError::MissingAttribute(e, n))) ==> e == st_init
        && d == Some(s) && !value_named(values, n.name@))
    &&& (r matches Err(TypeCheckerError::StructError(s, StructTypeError::UnknownAttribute(n))) ==> d == Some(s)
        && attr_pos(ctx.nodes@[s as int]->Struct_0.attrs@, n.name@) < 0)
    &&& (r is Err ==> r matches Err(TypeCheckerError::SymbolResolutionError(_))
        || r matches Err(TypeCheckerError::StructError(_, StructTypeError::MissingAttribute(_, _)))
        || r matches Err(TypeCheckerError::StructError(_, StructTypeError::UnknownAttribute(_))))
    &&& (r matches Err(TypeCheckerError::StructError(s, StructTypeError::MissingAttribute(_, n))) ==> {
        let attrs = ctx.nodes@[s as int]->Struct_0.attrs@;
        exists|k: int| 0 <= k < attrs.len() && (#[trigger] attrs[k]).name.name@ == n.name@ && attrs[k].default_value is None
            && forall|i: int| 0 <= i < k && (#[trigger] attrs[i]).default_value is None ==> value_named(values, attrs[i].name.name@)
    })
    &&& (r matches Err(TypeCheckerError::StructError(s, StructTypeError::UnknownAttribute(n))) ==> {
        let attrs = ctx.nodes@[s as int]->Struct_0.attrs@;
        &&& forall|k: int| 0 <= k < attrs.len() && (#[trigger] attrs[k]).default_value is None ==> value_named(values, attrs[k].name.name@)
        &&& exists|j: int| 0 <= j < values.len() && (#[trigger] values[j]).name.name@ == n.name@
            && forall|i: int| 0 <= i < j ==> attr_pos(attrs, (#[trigger] values[i]).name.name@) >= 0
    })
}

/// Checks the struct initialization at node `st_init`: every attribute
/// without a default value is given, and every given name is an attribute.
#[verifier::loop_isolation(false)]
pub fn check_struct_init(ctx: &IrCtx, symbols: &SymbolTableZipper, st_init: NodeRef) -> (r: Result<(), TypeCheckerError>)
    requires
        ctx.wf(),
        zipper_ok(ctx.nodes@, arena_items(ctx.symbols), arena_ident(ctx.symbols), *symbols),
        is_expr(ctx.nodes@, st_init as int),
        ctx.nodes@[st_init as int]->Expr_0 is StructInit,
    ensures
        struct_check_outcome(ctx, *symbols, st_init, r),
{
    let name = match &ctx.nodes[st_init] {
        Node::Expr(Expr::StructInit { struct_name, .. }, _) => struct_name.copy(),
        _ => { return unreached(); },
    };
    let st = match lookup_struct(ctx, symbols, &name.name) {
        Some(d) => d,
        None => {
            return Err(TypeCheckerError::SymbolResolutionError(SymbolResolutionError::TypeEval(TypeEvalError::UnknownIdent(name))));
        },
    };
    let (attrs, values) = match (&ctx.nodes[st], &ctx.nodes[st_init]) {
        (Node::Struct(s), Node::Expr(Expr::StructInit { values, .. }, _)) => (&s.attrs, values),
        _ => { return unreached(); },
    };
    // every attribute without a default value is given
    let mut k: usize = 0;
    while k < attrs.len()
        invariant
            k <= attrs@.len(),
            forall|i: int| 0 <= i < k && (#[trigger] attrs@[i]).default_value is None ==> value_named(values@, attrs@[i].name.name@),
        decreases attrs@.len() - k,
    {
        if attrs[k].default_value.is_none() {
            let mut j: usize = 0;
            let mut found = false;
            while j < values.len()
                invariant
                    j <= values@.len(),
                    found ==> value_named(values@, attrs@[k as int].name.name@),
                    !found ==> forall|i: int| 0 <= i < j ==> (#[trigger] values@[i]).name.name@ != attrs@[k as int].name.name@,
                decreases values@.len() - j,
            {
                if !found && chars_eq(&values[j].name.name, &attrs[k].name.name) {
                    found = true;
                }
                j = j + 1;
            }
            if !found {
                proof {
                    assert(attrs@[k as int].name.name@ == attrs@[k as int].name.name@);
                }
                return Err(TypeCheckerError::StructError(st, StructTypeError::MissingAttribute(st_init, attrs[k].name.copy())));
            }
        }
        k = k + 1;
    }
    // every given name is an attribute
    let mut j: usize = 0;
    while j < values.len()
        invariant
            j <= values@.len(),
            forall|i: int| 0 <= i < j ==> attr_pos(attrs@, (#[trigger] values@[i]).name.name@) >= 0,
        decreases values@.len() - j,
    {
        if find_attr(ctx, st, &values[j].name.name).is_none() {
            return Err(TypeCheckerError::StructError(st, StructTypeError::UnknownAttribute(values[j].name.copy())));
        }
        j = j + 1;
    }
    Ok(())
}

} // verus!
