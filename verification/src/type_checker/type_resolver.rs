use vstd::prelude::*;

use crate::ir::context::IrCtx;
use crate::ir::ir_walker::{lemma_nodes_compat_refl, node_compat, walk_ok, WalkState};
use crate::ir::node::{is_expr, is_func, is_struct, is_var, node_ok, Expr, Node, NodeRef};
use crate::ir::text::{copy_chars, copy_refs};
use crate::ir::types::{TypeSignature, TypeSignatureValue, TypeValue};
use crate::symbols::symbol_resolver::{lemma_resolve_post_trans, resolve_enum_init, resolve_post};

use super::type_inference::{lookup_subst, subst_get, subst_ok};
use super::{ExpectedType, SymbolResolutionError, TypeCheckerError, UndeterminableType};

verus! {

/// What applying substitutions keeps of the walk's state.
pub open spec fn apply_keeps(new: &WalkState, old: &WalkState) -> bool {
    &&& new.symbols == old.symbols
    &&& new.constraints@ == old.constraints@
    &&& new.substitutions@ == old.substitutions@
    &&& new.pass == old.pass
    &&& new.defining@ == old.defining@
}

/// The substitution gives a type of the table.
pub proof fn lemma_subst_get_in(types: Seq<TypeSignatureValue>, s: Map<usize, TypeSignature>, t: TypeSignature)
    requires
        subst_ok(types, s),
        t.id < types.len(),
    ensures
        subst_get(s, t).id < types.len(),
{
    if s.contains_key(t.id) {
        assert(s[t.id].id < types.len());
    }
}

/// What applying the substitution to the variable at node `v` does.
pub open spec fn apply_var_post(st_new: &WalkState, ctx_new: &IrCtx, st_old: &WalkState, ctx_old: &IrCtx, v: NodeRef) -> bool {
    &&& (resolve_post(ctx_new, ctx_old))
    &&& (apply_keeps(st_new, st_old))
    &&& (ctx_new.types == ctx_old.types)
    &&& (ctx_new.nodes@ == ctx_old.nodes@.update(v as int, Node::VarDecl(crate::ir::node::VarDecl {
            type_sig: subst_get(st_old.substitutions@, ctx_old.nodes@[v as int]->VarDecl_0.type_sig),
            ..ctx_old.nodes@[v as int]->VarDecl_0
        })))
}

/// Applies the substitution to the declared type of the variable at node `v`.
pub fn apply_var(st: &mut WalkState, ctx: &mut IrCtx, v: NodeRef)
    requires
        walk_ok(old(st), old(ctx)),
        is_var(old(ctx).nodes@, v as int),
    ensures
        apply_var_post(final(st), final(ctx), old(st), old(ctx), v),
{
    let ghost c0 = *ctx;
    proof {
        assert(node_ok(ctx.nodes@, v as int, ctx.types.types@.len() as int));
        lemma_nodes_compat_refl(ctx.nodes@);
    }
    let t = match &ctx.nodes[v] {
        Node::VarDecl(d) => d.type_sig,
        _ => { return unreached(); },
    };
    let u = lookup_subst(&st.substitutions, t);
    proof { lemma_subst_get_in(ctx.types.types@, st.substitutions@, t); }
    if let TypeSignatureValue::Struct { .. } = ctx.types.get(u) {
        if u != t {
            st.needs_rerun = true;
        }
    }
    ctx.set_var_type(v, u);
    proof {
        assert forall|i: int| 0 <= i < c0.nodes@.len() implies #[trigger] node_compat(ctx.nodes@[i], c0.nodes@[i]) by {
            crate::ir::node::reveal_same_kind(c0.nodes@[i]);
        }
    }
}

/// What applying the substitution to the function at node `f` does.
pub open spec fn apply_function_post(st_new: &WalkState, ctx_new: &IrCtx, st_old: &WalkState, ctx_old: &IrCtx, f: NodeRef) -> bool {
    &&& (resolve_post(ctx_new, ctx_old))
    &&& (apply_keeps(st_new, st_old))
    &&& (ctx_new.types == ctx_old.types)
    &&& (forall|i: int| 0 <= i < ctx_old.nodes@.len() && i != f ==> ctx_new.nodes@[i] == ctx_old.nodes@[i])
    &&& (ctx_new.nodes@[f as int] is Function)
    &&& (({
            let ofn = ctx_old.nodes@[f as int]->Function_0;
            let nfn = ctx_new.nodes@[f as int]->Function_0;
            &&& nfn.name == ofn.name
            &&& nfn.body == ofn.body
            &&& nfn.args@.len() == ofn.args@.len()
            &&& forall|k: int| 0 <= k < ofn.args@.len() ==> (#[trigger] nfn.args@[k]).name == ofn.args@[k].name
                && nfn.args@[k].type_sig == subst_get(st_old.substitutions@, ofn.args@[k].type_sig)
            &&& nfn.return_type == subst_get(st_old.substitutions@, ofn.return_type)
        }))
}

/// Applies the substitution to the argument and return types of the
/// function at node `f`.
#[verifier::loop_isolation(false)]
pub fn apply_function(st: &mut WalkState, ctx: &mut IrCtx, f: NodeRef)
    requires
        walk_ok(old(st), old(ctx)),
        is_func(old(ctx).nodes@, f as int),
    ensures
        apply_function_post(final(st), final(ctx), old(st), old(ctx), f),
{
    let ghost c0 = *ctx;
    proof {
        assert(node_ok(ctx.nodes@, f as int, ctx.types.types@.len() as int));
        lemma_nodes_compat_refl(ctx.nodes@);
    }
    let n = match &ctx.nodes[f] {
        Node::Function(fun, _) => fun.args.len(),
        _ => { return unreached(); },
    };
    let ghost ofn = c0.nodes@[f as int]->Function_0;
    let mut k: usize = 0;
    while k < n
        invariant
            k <= n,
            n == ofn.args@.len(),
            ctx.wf(),
            ctx.types == c0.types,
            ctx.symbols == c0.symbols,
            ctx.nodes@.len() == c0.nodes@.len(),
            forall|i: int| 0 <= i < c0.nodes@.len() && i != f ==> ctx.nodes@[i] == c0.nodes@[i],
            ctx.nodes@[f as int] is Function,
            ctx.nodes@[f as int]->Function_0.name == ofn.name,
            ctx.nodes@[f as int]->Function_0.body == ofn.body,
            ctx.nodes@[f as int]->Function_0.return_type == ofn.return_type,
            ctx.nodes@[f as int]->Function_1 == c0.nodes@[f as int]->Function_1,
            ctx.nodes@[f as int]->Function_0.args@.len() == n,
            forall|j: int| 0 <= j < n ==> (#[trigger] ctx.nodes@[f as int]->Function_0.args@[j]).name == ofn.args@[j].name,
            forall|j: int| 0 <= j < k ==> (#[trigger] ctx.nodes@[f as int]->Function_0.args@[j]).type_sig
                == subst_get(st.substitutions@, ofn.args@[j].type_sig),
            forall|j: int| k <= j < n ==> (#[trigger] ctx.nodes@[f as int]->Function_0.args@[j]).type_sig == ofn.args@[j].type_sig,
            apply_keeps(st, old(st)),
        decreases n - k,
    {
        proof { assert(node_ok(ctx.nodes@, f as int, ctx.types.types@.len() as int)); }
        let t = match &ctx.nodes[f] {
            Node::Function(fun, _) => fun.args[k].type_sig,
            _ => { return unreached(); },
        };
        let u = lookup_subst(&st.substitutions, t);
        proof { lemma_subst_get_in(ctx.types.types@, st.substitutions@, t); }
        if let TypeSignatureValue::Struct { .. } = ctx.types.get(u) {
            if u != t {
                st.needs_rerun = true;
            }
        }
        ctx.set_arg_type(f, k, u);
        k = k + 1;
    }
    proof { assert(node_ok(ctx.nodes@, f as int, ctx.types.types@.len() as int)); }
    let t = match &ctx.nodes[f] {
        Node::Function(fun, _) => fun.return_type,
        _ => { return unreached(); },
    };
    let u = lookup_subst(&st.substitutions, t);
    proof { lemma_subst_get_in(ctx.types.types@, st.substitutions@, t); }
    if let TypeSignatureValue::Struct { .. } = ctx.types.get(u) {
        if u != t {
            st.needs_rerun = true;
        }
    }
    ctx.set_return_type(f, u);
    proof {
        assert forall|i: int| 0 <= i < c0.nodes@.len() implies #[trigger] node_compat(ctx.nodes@[i], c0.nodes@[i]) by {
            crate::ir::node::reveal_same_kind(c0.nodes@[i]);
        }
    }
}

/// What applying the substitution to the struct at node `d` does.
pub open spec fn apply_struct_post(st_new: &WalkState, ctx_new: &IrCtx, st_old: &WalkState, ctx_old: &IrCtx, d: NodeRef) -> bool {
    &&& (resolve_post(ctx_new, ctx_old))
    &&& (apply_keeps(st_new, st_old))
    &&& (ctx_new.types == ctx_old.types)
    &&& (forall|i: int| 0 <= i < ctx_old.nodes@.len() && i != d ==> ctx_new.nodes@[i] == ctx_old.nodes@[i])
    &&& (ctx_new.nodes@[d as int] is Struct)
    &&& (({
            let ost = ctx_old.nodes@[d as int]->Struct_0;
            let nst = ctx_new.nodes@[d as int]->Struct_0;
            &&& nst.name == ost.name
            &&& nst.attrs@.len() == ost.attrs@.len()
            &&& forall|k: int| 0 <= k < ost.attrs@.len() ==> (#[trigger] nst.attrs@[k]).name == ost.attrs@[k].name
                && nst.attrs@[k].default_value == ost.attrs@[k].default_value
                && nst.attrs@[k].type_sig == subst_get(st_old.substitutions@, ost.attrs@[k].type_sig)
        }))
}

/// Applies the substitution to the attribute types of the struct at node `d`.
#[verifier::loop_isolation(false)]
pub fn apply_struct(st: &mut WalkState, ctx: &mut IrCtx, d: NodeRef)
    requires
        walk_ok(old(st), old(ctx)),
        is_struct(old(ctx).nodes@, d as int),
    ensures
        apply_struct_post(final(st), final(ctx), old(st), old(ctx), d),
{
    let ghost c0 = *ctx;
    proof {
        assert(node_ok(ctx.nodes@, d as int, ctx.types.types@.len() as int));
        lemma_nodes_compat_refl(ctx.nodes@);
    }
    let n = match &ctx.nodes[d] {
        Node::Struct(sd) => sd.attrs.len(),
        _ => { return unreached(); },
    };
    let ghost ost = c0.nodes@[d as int]->Struct_0;
    let mut k: usize = 0;
    while k < n
        invariant
            k <= n,
            n == ost.attrs@.len(),
            ctx.wf(),
            ctx.types == c0.types,
            ctx.symbols == c0.symbols,
            ctx.nodes@.len() == c0.nodes@.len(),
            forall|i: int| 0 <= i < c0.nodes@.len() && i != d ==> ctx.nodes@[i] == c0.nodes@[i],
            ctx.nodes@[d as int] is Struct,
            ctx.nodes@[d as int]->Struct_0.name == ost.name,
            ctx.nodes@[d as int]->Struct_0.attrs@.len() == n,
            forall|j: int| 0 <= j < n ==> (#[trigger] ctx.nodes@[d as int]->Struct_0.attrs@[j]).name == ost.attrs@[j].name
                && ctx.nodes@[d as int]->Struct_0.attrs@[j].default_value == ost.attrs@[j].default_value,
            forall|j: int| 0 <= j < k ==> (#[trigger] ctx.nodes@[d as int]->Struct_0.attrs@[j]).type_sig
                == subst_get(st.substitutions@, ost.attrs@[j].type_sig),
            forall|j: int| k <= j < n ==> (#[trigger] ctx.nodes@[d as int]->Struct_0.attrs@[j]).type_sig == ost.attrs@[j].type_sig,
            apply_keeps(st, old(st)),
        decreases n - k,
    {
        proof { assert(node_ok(ctx.nodes@, d as int, ctx.types.types@.len() as int)); }
        let t = match &ctx.nodes[d] {
            Node::Struct(sd) => sd.attrs[k].type_sig,
            _ => { return unreached(); },
        };
        let u = lookup_subst(&st.substitutions, t);
        proof { lemma_subst_get_in(ctx.types.types@, st.substitutions@, t); }
        if let TypeSignatureValue::Struct { .. } = ctx.types.get(u) {
            if u != t {
                st.needs_rerun = true;
            }
        }
        ctx.set_attr_type(d, k, u);
        k = k + 1;
    }
    proof {
        assert forall|i: int| 0 <= i < c0.nodes@.len() implies #[trigger] node_compat(ctx.nodes@[i], c0.nodes@[i]) by {
            crate::ir::node::reveal_same_kind(c0.nodes@[i]);
        }
    }
}

/// The enum initialization at node `e` names an enum that has the named
/// value.
pub open spec fn enum_init_found(ctx: &IrCtx, z: crate::symbols::symbol_table::symbol_table_zipper::SymbolTableZipper, e: NodeRef) -> bool {
    let x = ctx.nodes@[e as int]->Expr_0;
    crate::symbols::symbol_resolver::enum_decl_of(ctx.nodes@, crate::symbols::symbol_table::arena_items(ctx.symbols), z,
        x->EnumInit_enum_name@) matches Some(d) && crate::symbols::symbol_resolver::value_pos(
        ctx.nodes@[d as int]->Enum_0.values@, x->EnumInit_enum_value.name@) >= 0
}

/// What applying the substitution to the expression at node `e` does.
pub open spec fn apply_expr_post(st_new: &WalkState, ctx_new: &IrCtx, st_old: &WalkState, ctx_old: &IrCtx, e: NodeRef, r: Result<(), TypeCheckerError>) -> bool {
    &&& (resolve_post(ctx_new, ctx_old))
    &&& (apply_keeps(st_new, st_old))
    &&& (ctx_new.types == ctx_old.types)
    &&& (forall|i: int| 0 <= i < ctx_old.nodes@.len() && i != e ==> ctx_new.nodes@[i] == ctx_old.nodes@[i])
    &&& (r matches Err(TypeCheckerError::AnonymousEnumInitNonEnum(x, t)) ==> x == e && (ctx_old.nodes@[e as int]->Expr_0 is UnresolvedMemberAccess)
            && t == subst_get(st_old.substitutions@, ctx_old.nodes@[e as int]->Expr_0->UnresolvedMemberAccess_type_sig))
    &&& (({
            let x = ctx_old.nodes@[e as int]->Expr_0;
            let span = ctx_old.nodes@[e as int]->Expr_1;
            let y = ctx_new.nodes@[e as int]->Expr_0;
            &&& !(x is EscapeBlock || x is UnresolvedMemberAccess) ==> r is Ok && *ctx_new == *ctx_old && *st_new == *st_old
            &&& ctx_new.nodes@[e as int]->Expr_1 == span
            &&& x is EscapeBlock ==> {
                &&& r is Ok
                &&& *st_new == *st_old
                &&& y is EscapeBlock
                &&& y->EscapeBlock_content@ == x->EscapeBlock_content@
                &&& y->EscapeBlock_type_sig == subst_get(st_old.substitutions@, x->EscapeBlock_type_sig)
            }
            &&& x is UnresolvedMemberAccess ==> {
                let u = subst_get(st_old.substitutions@, x->UnresolvedMemberAccess_type_sig);
                match ctx_old.types.value(u) {
                    TypeValue::Enum(name) => {
                        &&& y is EnumInit
                        &&& y->EnumInit_enum_name@ == name
                        &&& y->EnumInit_enum_value.name@ == x->UnresolvedMemberAccess_member_name.name@
                        &&& y->EnumInit_items@ == match x->UnresolvedMemberAccess_items {
                            Some(v) => v@,
                            None => Seq::<NodeRef>::empty(),
                        }
                        &&& st_new.needs_rerun
                        &&& st_new.undeterminable@ == st_old.undeterminable@
                        &&& (r is Ok <==> enum_init_found(ctx_new, st_old.symbols, e))
                        &&& (r is Err ==> r matches Err(TypeCheckerError::SymbolResolutionError(_)))
                    },
                    TypeValue::TypeVariable(_) => {
                        &&& r is Ok
                        &&& y is UnresolvedMemberAccess
                        &&& y->UnresolvedMemberAccess_type_sig == u
                        &&& st_new.undeterminable@ == st_old.undeterminable@.push(
                            (UndeterminableType { span, expected: ExpectedType::Enum }),
                        )
                        &&& st_new.needs_rerun == (st_old.needs_rerun || st_old.previous_undeterminable@.len() == 0)
                    },
                    _ => r == Err::<(), TypeCheckerError>(TypeCheckerError::AnonymousEnumInitNonEnum(e, u))
                        && y is UnresolvedMemberAccess && y->UnresolvedMemberAccess_type_sig == u
                        && *st_new == *st_old,
                }
            }
        }))
}

/// Applies the substitution to the type of an escape block or of a member
/// access at node `e`. A member access without an object whose type is now
/// an enum becomes that enum's value; one whose type is still unknown is
/// noted as undeterminable (and asks for another round when the previous
/// round noted no place at all: places are told apart by nothing, so any
/// place noted before counts as this one); any other type is an error.
pub fn apply_expr(st: &mut WalkState, ctx: &mut IrCtx, e: NodeRef) -> (r: Result<(), TypeCheckerError>)
    requires
        walk_ok(old(st), old(ctx)),
        is_expr(old(ctx).nodes@, e as int),
    ensures
        apply_expr_post(final(st), final(ctx), old(st), old(ctx), e, r),
{
    let ghost c0 = *ctx;
    proof {
        assert(node_ok(ctx.nodes@, e as int, ctx.types.types@.len() as int));
        lemma_nodes_compat_refl(ctx.nodes@);
    }
    let (t, is_member) = match &ctx.nodes[e] {
        Node::Expr(Expr::EscapeBlock { type_sig, .. }, _) => (*type_sig, false),
        Node::Expr(Expr::UnresolvedMemberAccess { type_sig, .. }, _) => (*type_sig, true),
        _ => { return Ok(()); },
    };
    let u = lookup_subst(&st.substitutions, t);
    proof { lemma_subst_get_in(ctx.types.types@, st.substitutions@, t); }
    let (nx, span) = match &ctx.nodes[e] {
        Node::Expr(Expr::EscapeBlock { content, .. }, span) => (Expr::EscapeBlock { content: copy_chars(content), type_sig: u }, *span),
        Node::Expr(Expr::UnresolvedMemberAccess { object, member_name, items, .. }, span) => (
            Expr::UnresolvedMemberAccess {
                object: *object,
                member_name: member_name.copy(),
                items: match items {
                    Some(v) => Some(copy_refs(v)),
                    None => None,
                },
                type_sig: u,
            },
            *span,
        ),
        _ => { return unreached(); },
    };
    ctx.replace_expr(e, nx);
    let ghost c1 = *ctx;
    proof {
        assert forall|i: int| 0 <= i < c0.nodes@.len() implies #[trigger] node_compat(ctx.nodes@[i], c0.nodes@[i]) by {
            crate::ir::node::reveal_same_kind(c0.nodes@[i]);
        }
    }
    if !is_member {
        return Ok(());
    }
    match ctx.types.get(u) {
        TypeSignatureValue::Enum { name } => {
            let enum_name = copy_chars(name);
            proof { assert(node_ok(ctx.nodes@, e as int, ctx.types.types@.len() as int)); }
            let nx = match &ctx.nodes[e] {
                Node::Expr(Expr::UnresolvedMemberAccess { member_name, items, .. }, _) => Expr::EnumInit {
                    enum_name,
                    enum_value: member_name.copy(),
                    items: match items {
                        Some(v) => copy_refs(v),
                        None => Vec::new(),
                    },
                },
                _ => { return unreached(); },
            };
            ctx.replace_expr(e, nx);
            proof {
                assert forall|i: int| 0 <= i < c1.nodes@.len() implies #[trigger] node_compat(ctx.nodes@[i], c1.nodes@[i]) by {
                    crate::ir::node::reveal_same_kind(c1.nodes@[i]);
                }
                lemma_resolve_post_trans(ctx, &c1, &c0);
                crate::ir::ir_walker::lemma_zipper_ok_compat(ctx.nodes@, c0.nodes@, crate::symbols::symbol_table::arena_items(ctx.symbols),
                    crate::symbols::symbol_table::arena_ident(ctx.symbols), st.symbols);
            }
            st.needs_rerun = true;
            match resolve_enum_init(ctx, &st.symbols, e) {
                Ok(_) => Ok(()),
                Err(x) => Err(TypeCheckerError::SymbolResolutionError(x)),
            }
        },
        TypeSignatureValue::TypeVariable(_) => {
            if st.previous_undeterminable.len() == 0 {
                st.needs_rerun = true;
            }
            st.undeterminable.push(UndeterminableType { span, expected: ExpectedType::Enum });
            Ok(())
        },
        _ => Err(TypeCheckerError::AnonymousEnumInitNonEnum(e, u)),
    }
}

} // verus!
