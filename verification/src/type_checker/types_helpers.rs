use vstd::prelude::*;

use crate::ir::context::TypeTable;
use crate::ir::types::TypeSignature;

use super::coercion::{coerce, spec_coerce};
use super::TypeCheckerError;

verus! {

/// Checks that a value of type `expr_type` may stand where `type_sig` is
/// specified, and gives the type they meet in.
pub fn types_match(ctx: &TypeTable, type_sig: TypeSignature, expr_type: TypeSignature) -> (r: Result<TypeSignature, TypeCheckerError>)
    requires
        ctx.wf(),
        ctx.contains(type_sig),
        ctx.contains(expr_type),
    ensures
        r is Ok <==> spec_coerce(ctx.types@, type_sig, expr_type) is Some,
        r matches Ok(t) ==> spec_coerce(ctx.types@, type_sig, expr_type) == Some(t),
        r matches Err(e) ==> e == (TypeCheckerError::TypeSignatureMismatch { type_sig, expr_type }),
{
    match coerce(type_sig, expr_type, ctx) {
        Some(t) => Ok(t),
        None => Err(TypeCheckerError::TypeSignatureMismatch { type_sig, expr_type }),
    }
}

} // verus!

verus! {

/// Whether `t` is a declared type rather than a placeholder to infer.
pub open spec fn is_specified(types: &crate::ir::context::TypeTable, t: TypeSignature) -> bool {
    !(types.value(t) is TypeVariable)
}

/// Whether a type is untyped, or a function whose result is untyped.
pub open spec fn untyped_value(types: &crate::ir::context::TypeTable, t: TypeSignature) -> bool {
    t.id == crate::ir::types::builtin_index(crate::ir::types::BuiltinType::Untyped)
        || (types.value(t) matches crate::ir::types::TypeValue::Function(_, ret)
            && ret.id == crate::ir::types::builtin_index(crate::ir::types::BuiltinType::Untyped))
}

/// Type checks the variable declaration at node `v` on its own: a declared
/// type must not be `Untyped` and must meet the type of the value, and the
/// variable takes the type they meet in (or the value's type, when none is
/// declared); a variable whose type ends up untyped is an error.
pub fn type_check(
    ctx: &mut crate::ir::context::IrCtx,
    symbols: &crate::symbols::symbol_table::symbol_table_zipper::SymbolTableZipper,
    v: crate::ir::node::NodeRef,
) -> (r: Result<(), TypeCheckerError>)
    requires
        old(ctx).wf(),
        crate::symbols::symbol_table::symbol_table_zipper::zipper_ok(old(ctx).nodes@,
            crate::symbols::symbol_table::arena_items(old(ctx).symbols),
            crate::symbols::symbol_table::arena_ident(old(ctx).symbols), *symbols),
        crate::ir::node::is_var(old(ctx).nodes@, v as int),
    ensures
        crate::symbols::symbol_resolver::resolve_post(final(ctx), old(ctx)),
        ({
            let d = old(ctx).nodes@[v as int]->VarDecl_0;
            let spec = is_specified(&old(ctx).types, d.type_sig);
            let vt = crate::ir::typed::expr_deep(old(ctx).nodes@, crate::symbols::symbol_table::arena_items(old(ctx).symbols),
                old(ctx).types.types@, *symbols, d.value);
            let nt = final(ctx).nodes@[v as int]->VarDecl_0.type_sig;
            &&& (vt is None ==> r matches Err(TypeCheckerError::TypeEval(_)))
            &&& (r is Ok ==> {
                &&& (!spec ==> vt == Some(crate::ir::typed::deep(final(ctx).types.types@, nt)))
                &&& (spec ==> exists|e: TypeSignature| vt == Some(crate::ir::typed::deep(final(ctx).types.types@, e))
                    && #[trigger] spec_coerce(final(ctx).types.types@, d.type_sig, e) == Some(nt))
                &&& !untyped_value(&final(ctx).types, if spec { d.type_sig } else { nt })
                &&& !(spec && d.type_sig.id == crate::ir::types::builtin_index(crate::ir::types::BuiltinType::Untyped))
            })
            &&& (r matches Err(TypeCheckerError::TypeEval(err)) ==> vt is None)
            &&& (r matches Err(TypeCheckerError::UntypedValue) ==> vt is Some && ((spec
                && d.type_sig.id == crate::ir::types::builtin_index(crate::ir::types::BuiltinType::Untyped))
                || untyped_value(&final(ctx).types, if spec { d.type_sig } else { nt })))
            &&& (r is Err ==> r matches Err(TypeCheckerError::TypeEval(_)) || r matches Err(TypeCheckerError::UntypedValue)
                || r matches Err(TypeCheckerError::TypeSignatureMismatch { .. }))
            &&& (r matches Err(TypeCheckerError::TypeSignatureMismatch { type_sig, expr_type }) ==> spec && type_sig == d.type_sig
                && vt == Some(crate::ir::typed::deep(final(ctx).types.types@, expr_type))
                && spec_coerce(final(ctx).types.types@, type_sig, expr_type) is None)
        }),
{
    let ghost c0 = *ctx;
    proof {
        crate::ir::ir_walker::lemma_nodes_compat_refl(ctx.nodes@);
        assert(crate::ir::node::node_ok(ctx.nodes@, v as int, ctx.types.types@.len() as int));
    }
    let (ts, value) = match &ctx.nodes[v] {
        crate::ir::node::Node::VarDecl(d) => (d.type_sig, d.value),
        _ => { return unreached(); },
    };
    let specified = match ctx.types.get(ts) {
        crate::ir::types::TypeSignatureValue::TypeVariable(_) => false,
        _ => true,
    };
    let eval = match crate::ir::typed::eval_type(ctx, symbols, value) {
        Ok(t) => t,
        Err(err) => {
            proof { crate::symbols::symbol_resolver::lemma_eval_post_resolve_post(ctx, &c0); }
            return Err(TypeCheckerError::TypeEval(err));
        },
    };
    proof { crate::symbols::symbol_resolver::lemma_eval_post_resolve_post(ctx, &c0); }
    let untyped = ctx.types.builtin(crate::ir::types::BuiltinType::Untyped);
    if specified && ts.id == untyped.id {
        return Err(TypeCheckerError::UntypedValue);
    }
    let ghost c1 = *ctx;
    let t = if specified {
        types_match(&ctx.types, ts, eval)?
    } else {
        eval
    };
    ctx.set_var_type(v, t);
    proof {
        assert forall|i: int| 0 <= i < c1.nodes@.len() implies #[trigger] crate::ir::ir_walker::node_compat(ctx.nodes@[i], c1.nodes@[i]) by {
            crate::ir::node::reveal_same_kind(c1.nodes@[i]);
        }
        crate::symbols::symbol_resolver::lemma_resolve_post_trans(ctx, &c1, &c0);
    }
    let final_type = if specified { ts } else { t };
    proof {
        if specified {
            assert(spec_coerce(ctx.types.types@, ts, eval) == Some(t));
        }
    }
    if final_type.id == untyped.id {
        return Err(TypeCheckerError::UntypedValue);
    }
    match ctx.types.get(final_type) {
        crate::ir::types::TypeSignatureValue::Function { return_type, .. } => {
            if return_type.id == untyped.id {
                return Err(TypeCheckerError::UntypedValue);
            }
        },
        _ => {},
    }
    Ok(())
}

} // verus!
