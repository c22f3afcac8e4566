use vstd::prelude::*;
use std::collections::{HashMap, VecDeque};

use crate::ir::context::{IrCtx, TypeTable};
use crate::ir::ir_walker::{walk_ok, WalkState};
use crate::ir::node::{is_expr, is_func, is_stmt, is_struct, is_var, node_ok, Expr, Node, NodeRef, Stmt};
use crate::ir::typed::{deep, eval_post, eval_type, expr_deep, lemma_eval_post_trans, DeepType};
use crate::ir::types::{BuiltinType, TypeEvalError, TypeSignature, TypeSignatureValue, TypeValue};
use crate::symbols::symbol_resolver::{find_attr, find_value, lookup_enum, lookup_struct};
use crate::symbols::symbol_table::{arena_ident, arena_items};

use super::coercion::{coerce, spec_coerce};
use super::{FunctionError, TypeCheckerError, TypeConstraint};

verus! {

/// What gathering constraints keeps of the walk's state: the zipper, the
/// pass, the variables being defined, and the constraints gathered so far,
/// in front.
pub open spec fn infer_keeps(new: &WalkState, old: &WalkState) -> bool {
    &&& new.symbols == old.symbols
    &&& new.substitutions@ == old.substitutions@
    &&& new.pass == old.pass
    &&& new.defining@ == old.defining@
    &&& old.constraints@.len() <= new.constraints@.len()
    &&& forall|i: int| 0 <= i < old.constraints@.len() ==> #[trigger] new.constraints@[i] == old.constraints@[i]
}

/// Gathering constraints keeps the walk's invariant.
pub proof fn lemma_infer_walk_ok(new_st: &WalkState, new: &IrCtx, old_st: &WalkState, old: &IrCtx)
    requires
        walk_ok(old_st, old),
        eval_post(new, old),
        infer_keeps(new_st, old_st),
        constraints_in(new_st.constraints@, new.types.types@.len() as int),
    ensures
        walk_ok(new_st, new),
{
    crate::ir::ir_walker::lemma_subst_ok_extends(new, old, old_st.substitutions@);
}

/// Constraint `c` ties the declared type `t` to the type of expression `e`
/// (looked up at zipper `z`): `t` stands first when `sig_first`, second
/// otherwise, and the other side has the shape of the type of `e`.
pub open spec fn constraint_for(
    ctx: &IrCtx,
    z: crate::symbols::symbol_table::symbol_table_zipper::SymbolTableZipper,
    c: TypeConstraint,
    t: TypeSignature,
    e: NodeRef,
    sig_first: bool,
) -> bool {
    let found = if sig_first { c.1 } else { c.0 };
    &&& (if sig_first { c.0 } else { c.1 }) == t
    &&& found.id < ctx.types.types@.len()
    &&& expr_deep(ctx.nodes@, arena_items(ctx.symbols), ctx.types.types@, z, e) == Some(deep(ctx.types.types@, found))
}

/// A constraint keeps its meaning when the table grows.
pub proof fn lemma_constraint_for_extends(
    new: &IrCtx,
    old: &IrCtx,
    z: crate::symbols::symbol_table::symbol_table_zipper::SymbolTableZipper,
    c: TypeConstraint,
    t: TypeSignature,
    e: NodeRef,
    sig_first: bool,
)
    requires
        eval_post(new, old),
        old.wf(),
        crate::symbols::symbol_table::symbol_table_zipper::zipper_ok(old.nodes@, arena_items(old.symbols), arena_ident(old.symbols), z),
        constraint_for(old, z, c, t, e, sig_first),
    ensures
        constraint_for(new, z, c, t, e, sig_first),
{
    let found = if sig_first { c.1 } else { c.0 };
    crate::ir::typed::lemma_deep_extends(new.types.types@, old.types.types@, found);
    crate::ir::typed::lemma_expr_deep_extends(
        old.nodes@,
        arena_items(old.symbols),
        arena_ident(old.symbols),
        new.types.types@,
        old.types.types@,
        z,
        e,
    );
}

/// From position `from` on, `cs` holds one constraint per expression of
/// `es`, each tying the type of the same position of `ts` to it.
pub open spec fn all_constrained(
    ctx: &IrCtx,
    z: crate::symbols::symbol_table::symbol_table_zipper::SymbolTableZipper,
    cs: Seq<TypeConstraint>,
    from: int,
    ts: Seq<TypeSignature>,
    es: Seq<NodeRef>,
    sig_first: bool,
) -> bool {
    &&& cs.len() == from + es.len()
    &&& forall|j: int| from <= j < cs.len() ==> constraint_for(ctx, z, #[trigger] cs[j], ts[j - from], es[j - from], sig_first)
}

/// From position `from` on, `cs` holds one constraint per expression of
/// `es`: the type of the same position of `args` first, one of the shape of
/// the expression's type second.
pub open spec fn args_constrained(
    ctx: &IrCtx,
    z: crate::symbols::symbol_table::symbol_table_zipper::SymbolTableZipper,
    cs: Seq<TypeConstraint>,
    from: int,
    args: Seq<DeepType>,
    es: Seq<NodeRef>,
) -> bool {
    &&& cs.len() == from + es.len()
    &&& args.len() == es.len()
    &&& forall|j: int| from <= j < cs.len() ==> {
        &&& deep(ctx.types.types@, (#[trigger] cs[j]).0) == args[j - from]
        &&& cs[j].1.id < ctx.types.types@.len()
        &&& expr_deep(ctx.nodes@, arena_items(ctx.symbols), ctx.types.types@, z, es[j - from]) == Some(deep(ctx.types.types@, cs[j].1))
    }
}

/// The declared types of the attributes that the values `vals` of a struct
/// initialization name, in the struct at node `d`.
pub open spec fn init_sigs(nodes: Seq<Node>, d: NodeRef, vals: Seq<crate::ir::node::StructInitValue>) -> Seq<TypeSignature> {
    let attrs = nodes[d as int]->Struct_0.attrs@;
    vals.map_values(|v: crate::ir::node::StructInitValue| attrs[crate::ir::typed::attr_pos(attrs, v.name.name@)].type_sig)
}

/// The expressions of the values of a struct initialization.
pub open spec fn init_exprs(vals: Seq<crate::ir::node::StructInitValue>) -> Seq<NodeRef> {
    vals.map_values(|v: crate::ir::node::StructInitValue| v.value)
}

/// What gathering the constraint of the variable at node `v` does.
pub open spec fn infer_var_decl_post(st_new: &WalkState, ctx_new: &IrCtx, st_old: &WalkState, ctx_old: &IrCtx, v: NodeRef, r: Result<(), TypeCheckerError>) -> bool {
    &&& (constraints_in(st_new.constraints@, ctx_new.types.types@.len() as int))
    &&& (eval_post(ctx_new, ctx_old))
    &&& (infer_keeps(st_new, st_old))
    &&& (({
            let d = ctx_old.nodes@[v as int]->VarDecl_0;
            let vt = expr_deep(ctx_old.nodes@, arena_items(ctx_old.symbols), ctx_old.types.types@, st_old.symbols, d.value);
            &&& (r is Ok ==> st_new.constraints@.len() == st_old.constraints@.len() + 1
                && st_new.constraints@.last().0 == d.type_sig
                && vt == Some(deep(ctx_new.types.types@, st_new.constraints@.last().1)))
            &&& (r matches Err(e) ==> (e matches TypeCheckerError::TypeEval(err) && (vt is None)))
        }))
}

/// Constrains the declared type of the variable at node `v` to the type of
/// its value.
pub fn infer_var_decl(st: &mut WalkState, ctx: &mut IrCtx, v: NodeRef) -> (r: Result<(), TypeCheckerError>)
    requires
        walk_ok(old(st), old(ctx)),
        is_var(old(ctx).nodes@, v as int),
    ensures
        infer_var_decl_post(final(st), final(ctx), old(st), old(ctx), v, r),
{
    proof { assert(node_ok(ctx.nodes@, v as int, ctx.types.types@.len() as int)); }
    let (sig, value) = match &ctx.nodes[v] {
        Node::VarDecl(d) => (d.type_sig, d.value),
        _ => { return unreached(); },
    };
    let t = match eval_type(ctx, &st.symbols, value) {
        Ok(t) => t,
        Err(err) => { return Err(TypeCheckerError::TypeEval(err)); },
    };
    st.constraints.push_back(TypeConstraint(sig, t));
    Ok(())
}

/// The attributes of `attrs` that have a default value, in order.
pub open spec fn with_defaults(attrs: Seq<crate::ir::node::StructAttr>) -> Seq<crate::ir::node::StructAttr>
    decreases attrs.len(),
{
    if attrs.len() == 0 {
        attrs
    } else if attrs.last().default_value is Some {
        with_defaults(attrs.drop_last()).push(attrs.last())
    } else {
        with_defaults(attrs.drop_last())
    }
}

/// The declared types of `attrs`.
pub open spec fn attr_sigs(attrs: Seq<crate::ir::node::StructAttr>) -> Seq<TypeSignature> {
    attrs.map_values(|a: crate::ir::node::StructAttr| a.type_sig)
}

/// The default values of `attrs`.
pub open spec fn attr_defaults(attrs: Seq<crate::ir::node::StructAttr>) -> Seq<NodeRef> {
    attrs.map_values(|a: crate::ir::node::StructAttr| a.default_value->0)
}

/// The attribute has a default value without a type.
pub open spec fn default_untyped(
    ctx: &IrCtx,
    z: crate::symbols::symbol_table::symbol_table_zipper::SymbolTableZipper,
    a: crate::ir::node::StructAttr,
) -> bool {
    a.default_value matches Some(x) && expr_deep(ctx.nodes@, arena_items(ctx.symbols), ctx.types.types@, z, x) is None
}

/// The statement hands back a value without a type.
pub open spec fn return_untyped(
    ctx: &IrCtx,
    z: crate::symbols::symbol_table::symbol_table_zipper::SymbolTableZipper,
    s: NodeRef,
) -> bool {
    ctx.nodes@[s as int] matches Node::Stmt(Stmt::Return(x), _)
        && expr_deep(ctx.nodes@, arena_items(ctx.symbols), ctx.types.types@, z, x) is None
}

/// What gathering the constraints of the struct at node `d` does.
pub open spec fn infer_struct_post(st_new: &WalkState, ctx_new: &IrCtx, st_old: &WalkState, ctx_old: &IrCtx, d: NodeRef, r: Result<(), TypeCheckerError>) -> bool {
    &&& (constraints_in(st_new.constraints@, ctx_new.types.types@.len() as int))
    &&& (eval_post(ctx_new, ctx_old))
    &&& (infer_keeps(st_new, st_old))
    &&& (r matches Err(e) ==> e is TypeEval)
    &&& (r is Err ==> exists|k: int| 0 <= k < ctx_old.nodes@[d as int]->Struct_0.attrs@.len()
            && default_untyped(ctx_old, st_old.symbols, #[trigger] ctx_old.nodes@[d as int]->Struct_0.attrs@[k]))
    &&& (r is Ok ==> ({
            let ds = with_defaults(ctx_old.nodes@[d as int]->Struct_0.attrs@);
            all_constrained(ctx_new, st_old.symbols, st_new.constraints@, st_old.constraints@.len() as int,
                attr_sigs(ds), attr_defaults(ds), true)
        }))
}

/// Constrains the types of the attributes of the struct at node `d` that
/// have default values to the types of those values.
#[verifier::loop_isolation(false)]
pub fn infer_struct(st: &mut WalkState, ctx: &mut IrCtx, d: NodeRef) -> (r: Result<(), TypeCheckerError>)
    requires
        walk_ok(old(st), old(ctx)),
        is_struct(old(ctx).nodes@, d as int),
    ensures
        infer_struct_post(final(st), final(ctx), old(st), old(ctx), d, r),
{
    let ghost s0 = *st;
    let ghost c0 = *ctx;
    let ghost attrs = c0.nodes@[d as int]->Struct_0.attrs@;
    let ghost from = s0.constraints@.len() as int;
    proof { assert(node_ok(ctx.nodes@, d as int, ctx.types.types@.len() as int)); }
    let n = match &ctx.nodes[d] {
        Node::Struct(sd) => sd.attrs.len(),
        _ => { return unreached(); },
    };
    let mut k: usize = 0;
    proof { assert(with_defaults(attrs.take(0)) =~= Seq::<crate::ir::node::StructAttr>::empty()); }
    while k < n
        invariant
            k <= n,
            n == attrs.len(),
            eval_post(ctx, &c0),
            infer_keeps(st, &s0),
            walk_ok(st, ctx),
            all_constrained(ctx, s0.symbols, st.constraints@, from, attr_sigs(with_defaults(attrs.take(k as int))),
                attr_defaults(with_defaults(attrs.take(k as int))), true),
        decreases n - k,
    {
        proof { assert(node_ok(ctx.nodes@, d as int, ctx.types.types@.len() as int)); }
        let (sig, default) = match &ctx.nodes[d] {
            Node::Struct(sd) => (sd.attrs[k].type_sig, sd.attrs[k].default_value),
            _ => { return unreached(); },
        };
        let ghost prev = with_defaults(attrs.take(k as int));
        proof {
            assert(attrs.take(k + 1).drop_last() =~= attrs.take(k as int));
        }
        match default {
            Some(x) => {
                let ghost c1 = *ctx;
                let t = match eval_type(ctx, &st.symbols, x) {
                    Ok(t) => t,
                    Err(err) => {
                        proof {
                            lemma_eval_post_trans(ctx, &c1, &c0);
                            if expr_deep(c0.nodes@, arena_items(c0.symbols), c0.types.types@, s0.symbols, x) is Some {
                                crate::ir::typed::lemma_expr_deep_extends(c0.nodes@, arena_items(c0.symbols), arena_ident(c0.symbols),
                                    c1.types.types@, c0.types.types@, s0.symbols, x);
                            }
                            assert(default_untyped(&c0, s0.symbols, attrs[k as int]));
                        }
                        return Err(TypeCheckerError::TypeEval(err));
                    },
                };
                proof {
                    lemma_eval_post_trans(ctx, &c1, &c0);
                    crate::ir::typed::lemma_expr_deep_extends(c1.nodes@, arena_items(c1.symbols), arena_ident(c1.symbols),
                        ctx.types.types@, c1.types.types@, s0.symbols, x);
                    assert forall|j: int| from <= j < st.constraints@.len() implies constraint_for(
                        ctx,
                        s0.symbols,
                        #[trigger] st.constraints@[j],
                        attr_sigs(prev)[j - from],
                        attr_defaults(prev)[j - from],
                        true,
                    ) by {
                        lemma_constraint_for_extends(ctx, &c1, s0.symbols, st.constraints@[j], attr_sigs(prev)[j - from],
                            attr_defaults(prev)[j - from], true);
                    }
                }
                st.constraints.push_back(TypeConstraint(sig, t));
                proof {
                    assert(with_defaults(attrs.take(k + 1)) =~= prev.push(attrs[k as int]));
                    assert(attr_sigs(prev.push(attrs[k as int])) =~= attr_sigs(prev).push(sig));
                    assert(attr_defaults(prev.push(attrs[k as int])) =~= attr_defaults(prev).push(x));
                }
            },
            None => {
                proof {
                    assert(with_defaults(attrs.take(k + 1)) =~= prev);
                }
            },
        }
        k = k + 1;
    }
    proof { assert(attrs.take(n as int) =~= attrs); }
    Ok(())
}

/// The types of the expressions `es`, each constrained against the type of
/// the same position of `ts` (`ts` first when `sig_first`).
#[verifier::loop_isolation(false)]
fn constrain_each(
    st: &mut WalkState,
    ctx: &mut IrCtx,
    es: &Vec<NodeRef>,
    ts: &Vec<TypeSignature>,
    sig_first: bool,
) -> (r: Result<(), TypeCheckerError>)
    requires
        walk_ok(old(st), old(ctx)),
        forall|k: int| 0 <= k < es@.len() ==> is_expr(old(ctx).nodes@, #[trigger] es@[k] as int),
        es@.len() <= ts@.len(),
        crate::ir::context::sigs_in(ts@, old(ctx).types.types@.len() as int),
    ensures
        constraints_in(final(st).constraints@, final(ctx).types.types@.len() as int),
        eval_post(final(ctx), old(ctx)),
        infer_keeps(final(st), old(st)),
        r is Ok ==> final(st).constraints@.len() == old(st).constraints@.len() + es@.len()
            && forall|j: int| old(st).constraints@.len() <= j < final(st).constraints@.len() ==> constraint_for(
                final(ctx),
                old(st).symbols,
                #[trigger] final(st).constraints@[j],
                ts@[j - old(st).constraints@.len()],
                es@[j - old(st).constraints@.len()],
                sig_first,
            ),
        r matches Err(e) ==> (e matches TypeCheckerError::TypeEval(_) && (exists|k: int| 0 <= k < es@.len() && expr_deep(old(ctx).nodes@, arena_items(old(ctx).symbols),
                old(ctx).types.types@, old(st).symbols, #[trigger] es@[k]) is None)),
{
    let ghost s0 = *st;
    let ghost c0 = *ctx;
    let mut k: usize = 0;
    while k < es.len()
        invariant
            k <= es@.len(),
            eval_post(ctx, &c0),
            infer_keeps(st, &s0),
            walk_ok(st, ctx),
            st.constraints@.len() == s0.constraints@.len() + k,
            crate::ir::context::sigs_in(ts@, ctx.types.types@.len() as int),
            forall|j: int| s0.constraints@.len() <= j < st.constraints@.len() ==> constraint_for(
                ctx,
                s0.symbols,
                #[trigger] st.constraints@[j],
                ts@[j - s0.constraints@.len()],
                es@[j - s0.constraints@.len()],
                sig_first,
            ),
        decreases es@.len() - k,
    {
        let ghost c1 = *ctx;
        let t = match eval_type(ctx, &st.symbols, es[k]) {
            Ok(t) => t,
            Err(err) => {
                proof {
                    lemma_eval_post_trans(ctx, &c1, &c0);
                    crate::ir::typed::lemma_expr_deep_extends(c0.nodes@, arena_items(c0.symbols), arena_ident(c0.symbols),
                        c1.types.types@, c0.types.types@, s0.symbols, es@[k as int]);
                }
                return Err(TypeCheckerError::TypeEval(err));
            },
        };
        proof {
            lemma_eval_post_trans(ctx, &c1, &c0);
            crate::ir::typed::lemma_expr_deep_extends(c1.nodes@, arena_items(c1.symbols), arena_ident(c1.symbols),
                ctx.types.types@, c1.types.types@, s0.symbols, es@[k as int]);
            assert forall|j: int| s0.constraints@.len() <= j < st.constraints@.len() implies constraint_for(
                ctx,
                s0.symbols,
                #[trigger] st.constraints@[j],
                ts@[j - s0.constraints@.len()],
                es@[j - s0.constraints@.len()],
                sig_first,
            ) by {
                lemma_constraint_for_extends(ctx, &c1, s0.symbols, st.constraints@[j], ts@[j - s0.constraints@.len()],
                    es@[j - s0.constraints@.len()], sig_first);
            }
        }
        if sig_first {
            st.constraints.push_back(TypeConstraint(ts[k], t));
        } else {
            st.constraints.push_back(TypeConstraint(t, ts[k]));
        }
        k = k + 1;
    }
    Ok(())
}

/// Every expression of `es` has a type.
pub open spec fn all_typed(ctx: &IrCtx, z: crate::symbols::symbol_table::symbol_table_zipper::SymbolTableZipper, es: Seq<NodeRef>) -> bool {
    forall|k: int| 0 <= k < es.len() ==> (#[trigger] expr_deep(ctx.nodes@, arena_items(ctx.symbols), ctx.types.types@, z, es[k])) is Some
}

/// What gathering the constraints of the call at node `e` gives, when the
/// called value has type `ft` and the call passes `n` arguments (all of
/// them typed when `typed`): an error when the value has no type, is no
/// function (its type, in the table `types`, is named) or takes another
/// number of arguments, nothing being added then; otherwise success with one
/// constraint per argument, which is owed when the arguments are typed
/// (`added` is the number of constraints added).
pub open spec fn call_outcome(
    ft: Option<DeepType>,
    n: nat,
    typed: bool,
    e: NodeRef,
    r: Result<(), TypeCheckerError>,
    added: int,
    types: Seq<TypeSignatureValue>,
) -> bool {
    match ft {
        None => r matches Err(TypeCheckerError::TypeEval(_)) && added == 0,
        Some(DeepType::Function(args, ret)) => if args.len() != n {
            r matches Err(TypeCheckerError::FunctionError(FunctionError::FuncCallWrongArgAmount { call, func_type }))
                && call == e && deep(types, func_type) == DeepType::Function(args, ret) && added == 0
        } else {
            &&& r is Ok ==> added == n
            &&& typed ==> r is Ok
            &&& r is Err ==> r matches Err(TypeCheckerError::TypeEval(_))
        },
        Some(t) => r matches Err(TypeCheckerError::TypeEval(TypeEvalError::CallNonFunction(x))) && deep(types, x) == t
            && added == 0,
    }
}

/// Gathers the constraints of the call at node `e`: each argument against
/// the type of the same argument of the called function.
#[verifier::loop_isolation(false)]
fn infer_call(st: &mut WalkState, ctx: &mut IrCtx, e: NodeRef) -> (r: Result<(), TypeCheckerError>)
    requires
        walk_ok(old(st), old(ctx)),
        is_expr(old(ctx).nodes@, e as int),
        old(ctx).nodes@[e as int]->Expr_0 is FunctionCall,
    ensures
        constraints_in(final(st).constraints@, final(ctx).types.types@.len() as int),
        eval_post(final(ctx), old(ctx)),
        infer_keeps(final(st), old(st)),
        call_outcome(
            expr_deep(old(ctx).nodes@, arena_items(old(ctx).symbols), old(ctx).types.types@, old(st).symbols,
                old(ctx).nodes@[e as int]->Expr_0->FunctionCall_func),
            old(ctx).nodes@[e as int]->Expr_0->FunctionCall_params@.len(),
            all_typed(old(ctx), old(st).symbols, old(ctx).nodes@[e as int]->Expr_0->FunctionCall_params@),
            e,
            r,
            final(st).constraints@.len() - old(st).constraints@.len(),
            final(ctx).types.types@,
        ),
        r is Ok ==> (expr_deep(old(ctx).nodes@, arena_items(old(ctx).symbols), old(ctx).types.types@, old(st).symbols,
            old(ctx).nodes@[e as int]->Expr_0->FunctionCall_func) matches Some(DeepType::Function(args, _))
            && args_constrained(
            final(ctx),
            old(st).symbols,
            final(st).constraints@,
            old(st).constraints@.len() as int,
            args,
            old(ctx).nodes@[e as int]->Expr_0->FunctionCall_params@,
        )),
{
    let ghost s0 = *st;
    let ghost c0 = *ctx;
    proof { assert(node_ok(ctx.nodes@, e as int, ctx.types.types@.len() as int)); }
    let (func, params) = match &ctx.nodes[e] {
        Node::Expr(Expr::FunctionCall { func, params }, _) => (*func, crate::ir::text::copy_refs(params)),
        _ => { return unreached(); },
    };
    let tf = match eval_type(ctx, &st.symbols, func) {
        Ok(t) => t,
        Err(err) => { return Err(TypeCheckerError::TypeEval(err)); },
    };
    proof { crate::ir::typed::lemma_deep_value(ctx.types.types@, tf); }
    let args = match ctx.types.get(tf) {
        TypeSignatureValue::Function { args, .. } => crate::ir::types::copy_type_sigs(args),
        _ => { return Err(TypeCheckerError::TypeEval(TypeEvalError::CallNonFunction(tf))); },
    };
    if args.len() != params.len() {
        return Err(TypeCheckerError::FunctionError(FunctionError::FuncCallWrongArgAmount { call: e, func_type: tf }));
    }
    proof {
        assert forall|k: int| 0 <= k < args@.len() implies (#[trigger] args@[k]).id < ctx.types.types@.len() by {
            assert(crate::ir::types::type_children(ctx.types.value(tf))[k] == args@[k]);
        }
    }
    let ghost c1 = *ctx;
    let r = constrain_each(st, ctx, &params, &args, true);
    proof {
        lemma_eval_post_trans(ctx, &c1, &c0);
        if r is Err && all_typed(&c0, s0.symbols, params@) {
            let k = choose|k: int| 0 <= k < params@.len() && expr_deep(c1.nodes@, arena_items(c1.symbols),
                c1.types.types@, s0.symbols, #[trigger] params@[k]) is None;
            assert(expr_deep(c0.nodes@, arena_items(c0.symbols), c0.types.types@, s0.symbols, params@[k]) is Some);
            crate::ir::typed::lemma_expr_deep_extends(c0.nodes@, arena_items(c0.symbols), arena_ident(c0.symbols),
                c1.types.types@, c0.types.types@, s0.symbols, params@[k]);
        }
        if r is Ok {
            let from = s0.constraints@.len() as int;
            assert forall|j: int| from <= j < st.constraints@.len() implies deep(ctx.types.types@, (#[trigger] st.constraints@[j]).0)
                == crate::ir::typed::deep_all(c1.types.types@, args@)[j - from] by {
                assert(constraint_for(ctx, s0.symbols, st.constraints@[j], args@[j - from], params@[j - from], true));
                crate::ir::typed::lemma_deep_extends(ctx.types.types@, c1.types.types@, args@[j - from]);
            }
        }
    }
    r
}

/// The type of the attribute that the method call at node `e` calls.
pub open spec fn method_deep(
    nodes: Seq<Node>,
    items: Seq<crate::symbols::symbol_table::SymbolValueItem>,
    types: Seq<TypeSignatureValue>,
    z: crate::symbols::symbol_table::symbol_table_zipper::SymbolTableZipper,
    e: NodeRef,
) -> Option<DeepType> {
    match nodes[e as int]->Expr_0 {
        Expr::MethodCall { struct_expr, attr_name, .. } => if struct_expr < e {
            crate::ir::typed::attr_deep(nodes, items, types, z, expr_deep(nodes, items, types, z, struct_expr), attr_name.name@)
        } else {
            None
        },
        _ => None,
    }
}

/// Gathers the constraints of the method call at node `e`, as for a call
/// of the attribute: each argument against the type of the same argument
/// of the function that the attribute holds.
#[verifier::loop_isolation(false)]
fn infer_method_call(st: &mut WalkState, ctx: &mut IrCtx, e: NodeRef) -> (r: Result<(), TypeCheckerError>)
    requires
        walk_ok(old(st), old(ctx)),
        is_expr(old(ctx).nodes@, e as int),
        old(ctx).nodes@[e as int]->Expr_0 is MethodCall,
    ensures
        constraints_in(final(st).constraints@, final(ctx).types.types@.len() as int),
        eval_post(final(ctx), old(ctx)),
        infer_keeps(final(st), old(st)),
        call_outcome(
            method_deep(old(ctx).nodes@, arena_items(old(ctx).symbols), old(ctx).types.types@, old(st).symbols, e),
            old(ctx).nodes@[e as int]->Expr_0->MethodCall_params@.len(),
            all_typed(old(ctx), old(st).symbols, old(ctx).nodes@[e as int]->Expr_0->MethodCall_params@),
            e,
            r,
            final(st).constraints@.len() - old(st).constraints@.len(),
            final(ctx).types.types@,
        ),
        r is Ok ==> (method_deep(old(ctx).nodes@, arena_items(old(ctx).symbols), old(ctx).types.types@, old(st).symbols, e)
            matches Some(DeepType::Function(args, _)) && args_constrained(
            final(ctx),
            old(st).symbols,
            final(st).constraints@,
            old(st).constraints@.len() as int,
            args,
            old(ctx).nodes@[e as int]->Expr_0->MethodCall_params@,
        )),
{
    let ghost s0 = *st;
    let ghost c0 = *ctx;
    proof { assert(node_ok(ctx.nodes@, e as int, ctx.types.types@.len() as int)); }
    let (obj, attr_name, params) = match &ctx.nodes[e] {
        Node::Expr(Expr::MethodCall { struct_expr, attr_name, params }, _) => (
            *struct_expr,
            attr_name.copy(),
            crate::ir::text::copy_refs(params),
        ),
        _ => { return unreached(); },
    };
    let ts = match eval_type(ctx, &st.symbols, obj) {
        Ok(t) => t,
        Err(err) => { return Err(TypeCheckerError::TypeEval(err)); },
    };
    proof {
        crate::ir::typed::lemma_attr_deep_extends(
            c0.nodes@,
            arena_items(c0.symbols),
            arena_ident(c0.symbols),
            ctx.types.types@,
            c0.types.types@,
            s0.symbols,
            Some(deep(ctx.types.types@, ts)),
            attr_name.name@,
        );
    }
    let tf = match crate::ir::typed::attr_type(ctx, &st.symbols, ts, &attr_name) {
        Ok(t) => t,
        Err(err) => { return Err(TypeCheckerError::TypeEval(err)); },
    };
    proof { crate::ir::typed::lemma_deep_value(ctx.types.types@, tf); }
    let args = match ctx.types.get(tf) {
        TypeSignatureValue::Function { args, .. } => crate::ir::types::copy_type_sigs(args),
        _ => { return Err(TypeCheckerError::TypeEval(TypeEvalError::CallNonFunction(tf))); },
    };
    if args.len() != params.len() {
        return Err(TypeCheckerError::FunctionError(FunctionError::FuncCallWrongArgAmount { call: e, func_type: tf }));
    }
    proof {
        assert forall|k: int| 0 <= k < args@.len() implies (#[trigger] args@[k]).id < ctx.types.types@.len() by {
            assert(crate::ir::types::type_children(ctx.types.value(tf))[k] == args@[k]);
        }
    }
    let ghost c1 = *ctx;
    let r = constrain_each(st, ctx, &params, &args, true);
    proof {
        lemma_eval_post_trans(ctx, &c1, &c0);
        if r is Err && all_typed(&c0, s0.symbols, params@) {
            let k = choose|k: int| 0 <= k < params@.len() && expr_deep(c1.nodes@, arena_items(c1.symbols),
                c1.types.types@, s0.symbols, #[trigger] params@[k]) is None;
            assert(expr_deep(c0.nodes@, arena_items(c0.symbols), c0.types.types@, s0.symbols, params@[k]) is Some);
            crate::ir::typed::lemma_expr_deep_extends(c0.nodes@, arena_items(c0.symbols), arena_ident(c0.symbols),
                c1.types.types@, c0.types.types@, s0.symbols, params@[k]);
        }
        if r is Ok {
            let from = s0.constraints@.len() as int;
            assert forall|j: int| from <= j < st.constraints@.len() implies deep(ctx.types.types@, (#[trigger] st.constraints@[j]).0)
                == crate::ir::typed::deep_all(c1.types.types@, args@)[j - from] by {
                assert(constraint_for(ctx, s0.symbols, st.constraints@[j], args@[j - from], params@[j - from], true));
                crate::ir::typed::lemma_deep_extends(ctx.types.types@, c1.types.types@, args@[j - from]);
            }
        }
    }
    r
}

/// Why a struct initialization gets no constraints: the struct is not
/// known, a value names no attribute of it, or a value has no type.
pub open spec fn struct_init_unfit(ctx: &IrCtx, z: crate::symbols::symbol_table::symbol_table_zipper::SymbolTableZipper, e: NodeRef) -> bool {
    let x = ctx.nodes@[e as int]->Expr_0;
    let values = x->StructInit_values@;
    match crate::ir::typed::struct_decl_of(ctx.nodes@, arena_items(ctx.symbols), z, x->StructInit_struct_name.name@) {
        None => true,
        Some(d) => (exists|k: int| 0 <= k < values.len() && crate::ir::typed::attr_pos(
                ctx.nodes@[d as int]->Struct_0.attrs@, (#[trigger] values[k]).name.name@) < 0)
            || !all_typed(ctx, z, init_exprs(values)),
    }
}

/// Why an assignment gets no constraint: one of its sides has no type.
pub open spec fn assignment_unfit(ctx: &IrCtx, z: crate::symbols::symbol_table::symbol_table_zipper::SymbolTableZipper, e: NodeRef) -> bool {
    let x = ctx.nodes@[e as int]->Expr_0;
    expr_deep(ctx.nodes@, arena_items(ctx.symbols), ctx.types.types@, z, x->Assignment_lhs) is None
        || expr_deep(ctx.nodes@, arena_items(ctx.symbols), ctx.types.types@, z, x->Assignment_rhs) is None
}

/// Why an enum value gets no constraints: the enum or its value is not
/// known, or one of the items that its value declares has no type.
pub open spec fn enum_init_unfit(ctx: &IrCtx, z: crate::symbols::symbol_table::symbol_table_zipper::SymbolTableZipper, e: NodeRef) -> bool {
    let x = ctx.nodes@[e as int]->Expr_0;
    match crate::symbols::symbol_resolver::enum_decl_of(ctx.nodes@, arena_items(ctx.symbols), z, x->EnumInit_enum_name@) {
        None => true,
        Some(d) => {
            let items = x->EnumInit_items@;
            let vals = ctx.nodes@[d as int]->Enum_0.values@;
            let k = crate::symbols::symbol_resolver::value_pos(vals, x->EnumInit_enum_value.name@);
            k < 0 || !all_typed(ctx, z, items.take(
                if items.len() < vals[k].items@.len() { items.len() as int } else { vals[k].items@.len() as int }))
        },
    }
}

/// Gathers the constraints of the struct initialization at node `e`: each
/// value against the declared type of the attribute that it names.
#[verifier::loop_isolation(false)]
fn infer_struct_init(st: &mut WalkState, ctx: &mut IrCtx, e: NodeRef) -> (r: Result<(), TypeCheckerError>)
    requires
        walk_ok(old(st), old(ctx)),
        is_expr(old(ctx).nodes@, e as int),
        old(ctx).nodes@[e as int]->Expr_0 is StructInit,
    ensures
        constraints_in(final(st).constraints@, final(ctx).types.types@.len() as int),
        eval_post(final(ctx), old(ctx)),
        infer_keeps(final(st), old(st)),
        r is Err ==> struct_init_unfit(old(ctx), old(st).symbols, e),
        r matches Err(err) ==> err is TypeEval,
        r is Ok ==> ({
            let values = old(ctx).nodes@[e as int]->Expr_0->StructInit_values@;
            crate::ir::typed::struct_decl_of(old(ctx).nodes@, arena_items(old(ctx).symbols), old(st).symbols,
                old(ctx).nodes@[e as int]->Expr_0->StructInit_struct_name.name@) matches Some(d)
            && (forall|k: int| 0 <= k < values.len() ==> crate::ir::typed::attr_pos(
                old(ctx).nodes@[d as int]->Struct_0.attrs@, (#[trigger] values[k]).name.name@) >= 0)
            && all_constrained(
                final(ctx),
                old(st).symbols,
                final(st).constraints@,
                old(st).constraints@.len() as int,
                init_sigs(old(ctx).nodes@, d, values),
                init_exprs(values),
                true,
            )
        }),
{
    let ghost s0 = *st;
    let ghost c0 = *ctx;
    proof { assert(node_ok(ctx.nodes@, e as int, ctx.types.types@.len() as int)); }
    let ghost values = c0.nodes@[e as int]->Expr_0->StructInit_values@;
    let (name, n) = match &ctx.nodes[e] {
        Node::Expr(Expr::StructInit { struct_name, values }, _) => (struct_name.copy(), values.len()),
        _ => { return unreached(); },
    };
    let d = match lookup_struct(ctx, &st.symbols, &name.name) {
        Some(d) => d,
        None => { return Err(TypeCheckerError::TypeEval(TypeEvalError::UnknownIdent(name))); },
    };
    let ghost attrs = c0.nodes@[d as int]->Struct_0.attrs@;
    let mut vals: Vec<NodeRef> = Vec::new();
    let mut sigs: Vec<TypeSignature> = Vec::new();
    let mut k: usize = 0;
    while k < n
        invariant
            k <= n,
            n == values.len(),
            *ctx == c0,
            *st == s0,
            is_struct(ctx.nodes@, d as int),
            vals@ == init_exprs(values.take(k as int)),
            sigs@ == init_sigs(ctx.nodes@, d, values.take(k as int)),
            forall|j: int| 0 <= j < k ==> crate::ir::typed::attr_pos(attrs, (#[trigger] values[j]).name.name@) >= 0,
            forall|j: int| 0 <= j < k ==> is_expr(ctx.nodes@, #[trigger] vals@[j] as int),
            crate::ir::context::sigs_in(sigs@, ctx.types.types@.len() as int),
        decreases n - k,
    {
        proof { assert(node_ok(ctx.nodes@, e as int, ctx.types.types@.len() as int)); }
        let (vname, vref) = match &ctx.nodes[e] {
            Node::Expr(Expr::StructInit { values, .. }, _) => (values[k].name.copy(), values[k].value),
            _ => { return unreached(); },
        };
        let a = match find_attr(ctx, d, &vname.name) {
            Some(a) => a,
            None => { return Err(TypeCheckerError::TypeEval(TypeEvalError::UnknownIdent(vname))); },
        };
        proof { assert(node_ok(ctx.nodes@, d as int, ctx.types.types@.len() as int)); }
        let sig = match &ctx.nodes[d] {
            Node::Struct(sd) => sd.attrs[a].type_sig,
            _ => { return unreached(); },
        };
        vals.push(vref);
        sigs.push(sig);
        k = k + 1;
        proof {
            assert(values.take(k as int) =~= values.take(k - 1).push(values[k - 1]));
            assert(vals@ =~= init_exprs(values.take(k as int)));
            assert(sigs@ =~= init_sigs(ctx.nodes@, d, values.take(k as int)));
        }
    }
    proof {
        assert(values.take(n as int) =~= values);
    }
    constrain_each(st, ctx, &vals, &sigs, true)
}

/// Gathers the constraint of the assignment at node `e`: the type of its
/// left side against the type of its right side.
fn infer_assignment(st: &mut WalkState, ctx: &mut IrCtx, e: NodeRef) -> (r: Result<(), TypeCheckerError>)
    requires
        walk_ok(old(st), old(ctx)),
        is_expr(old(ctx).nodes@, e as int),
        old(ctx).nodes@[e as int]->Expr_0 is Assignment,
    ensures
        constraints_in(final(st).constraints@, final(ctx).types.types@.len() as int),
        eval_post(final(ctx), old(ctx)),
        infer_keeps(final(st), old(st)),
        r is Err ==> assignment_unfit(old(ctx), old(st).symbols, e),
        r matches Err(err) ==> err is TypeEval,
        r is Ok ==> ({
            let c = final(st).constraints@.last();
            let lhs = old(ctx).nodes@[e as int]->Expr_0->Assignment_lhs;
            let rhs = old(ctx).nodes@[e as int]->Expr_0->Assignment_rhs;
            &&& final(st).constraints@.len() == old(st).constraints@.len() + 1
            &&& c.0.id < final(ctx).types.types@.len()
            &&& c.1.id < final(ctx).types.types@.len()
            &&& expr_deep(old(ctx).nodes@, arena_items(old(ctx).symbols), old(ctx).types.types@, old(st).symbols, lhs)
                == Some(deep(final(ctx).types.types@, c.0))
            &&& expr_deep(old(ctx).nodes@, arena_items(old(ctx).symbols), old(ctx).types.types@, old(st).symbols, rhs)
                == Some(deep(final(ctx).types.types@, c.1))
        }),
{
    let ghost c0 = *ctx;
    proof { assert(node_ok(ctx.nodes@, e as int, ctx.types.types@.len() as int)); }
    let (lhs, rhs) = match &ctx.nodes[e] {
        Node::Expr(Expr::Assignment { lhs, rhs }, _) => (*lhs, *rhs),
        _ => { return unreached(); },
    };
    let a = match eval_type(ctx, &st.symbols, lhs) {
        Ok(t) => t,
        Err(err) => { return Err(TypeCheckerError::TypeEval(err)); },
    };
    let ghost c1 = *ctx;
    let b = match eval_type(ctx, &st.symbols, rhs) {
        Ok(t) => t,
        Err(err) => {
            proof {
                lemma_eval_post_trans(ctx, &c1, &c0);
                if expr_deep(c0.nodes@, arena_items(c0.symbols), c0.types.types@, st.symbols, rhs) is Some {
                    crate::ir::typed::lemma_expr_deep_extends(c0.nodes@, arena_items(c0.symbols), arena_ident(c0.symbols),
                        c1.types.types@, c0.types.types@, st.symbols, rhs);
                }
            }
            return Err(TypeCheckerError::TypeEval(err));
        },
    };
    proof {
        lemma_eval_post_trans(ctx, &c1, &c0);
        crate::ir::typed::lemma_deep_extends(ctx.types.types@, c1.types.types@, a);
        crate::ir::typed::lemma_expr_deep_extends(c0.nodes@, arena_items(c0.symbols), arena_ident(c0.symbols),
            c1.types.types@, c0.types.types@, st.symbols, rhs);
    }
    st.constraints.push_back(TypeConstraint(a, b));
    Ok(())
}

/// Gathers the constraints of the enum value at node `e`: the type of each
/// item against the type declared at the same position of the value.
#[verifier::loop_isolation(false)]
fn infer_enum_init(st: &mut WalkState, ctx: &mut IrCtx, e: NodeRef) -> (r: Result<(), TypeCheckerError>)
    requires
        walk_ok(old(st), old(ctx)),
        is_expr(old(ctx).nodes@, e as int),
        old(ctx).nodes@[e as int]->Expr_0 is EnumInit,
    ensures
        constraints_in(final(st).constraints@, final(ctx).types.types@.len() as int),
        eval_post(final(ctx), old(ctx)),
        infer_keeps(final(st), old(st)),
        r is Err ==> enum_init_unfit(old(ctx), old(st).symbols, e),
        r matches Err(err) ==> err is TypeEval,
        r is Ok ==> (crate::symbols::symbol_resolver::enum_decl_of(old(ctx).nodes@, arena_items(old(ctx).symbols),
            old(st).symbols, old(ctx).nodes@[e as int]->Expr_0->EnumInit_enum_name@) matches Some(d) && ({
            let items = old(ctx).nodes@[e as int]->Expr_0->EnumInit_items@;
            let vals = old(ctx).nodes@[d as int]->Enum_0.values@;
            let k = crate::symbols::symbol_resolver::value_pos(vals, old(ctx).nodes@[e as int]->Expr_0->EnumInit_enum_value.name@);
            let n = if items.len() < vals[k].items@.len() { items.len() } else { vals[k].items@.len() };
            &&& 0 <= k
            &&& all_constrained(
                final(ctx),
                old(st).symbols,
                final(st).constraints@,
                old(st).constraints@.len() as int,
                vals[k].items@,
                items.take(n as int),
                false,
            )
        })),
{
    proof { assert(node_ok(ctx.nodes@, e as int, ctx.types.types@.len() as int)); }
    let (name, value, items, span) = match &ctx.nodes[e] {
        Node::Expr(Expr::EnumInit { enum_name, enum_value, items }, span) => (
            crate::ir::text::copy_chars(enum_name),
            enum_value.copy(),
            crate::ir::text::copy_refs(items),
            *span,
        ),
        _ => { return unreached(); },
    };
    let d = match lookup_enum(ctx, &st.symbols, &name) {
        Some(d) => d,
        None => {
            return Err(TypeCheckerError::TypeEval(TypeEvalError::Lookup(crate::ir::node::Ident { name, span })));
        },
    };
    let k = match find_value(ctx, d, &value.name) {
        Some(k) => k,
        None => {
            return Err(TypeCheckerError::TypeEval(TypeEvalError::Lookup(crate::ir::node::Ident { name, span })));
        },
    };
    proof { assert(node_ok(ctx.nodes@, d as int, ctx.types.types@.len() as int)); }
    let sigs = match &ctx.nodes[d] {
        Node::Enum(en) => crate::ir::types::copy_type_sigs(&en.values[k].items),
        _ => { return unreached(); },
    };
    let m = if items.len() < sigs.len() { items.len() } else { sigs.len() };
    let mut its: Vec<NodeRef> = Vec::new();
    let mut j: usize = 0;
    while j < m
        invariant
            j <= m,
            m <= items@.len(),
            its@ == items@.subrange(0, j as int),
        decreases m - j,
    {
        its.push(items[j]);
        j = j + 1;
        assert(its@ =~= items@.subrange(0, j as int));
    }
    constrain_each(st, ctx, &its, &sigs, false)
}

/// What gathering the constraints of the expression at node `e` does.
pub open spec fn infer_expr_post(st_new: &WalkState, ctx_new: &IrCtx, st_old: &WalkState, ctx_old: &IrCtx, e: NodeRef, r: Result<(), TypeCheckerError>) -> bool {
    &&& (constraints_in(st_new.constraints@, ctx_new.types.types@.len() as int))
    &&& (eval_post(ctx_new, ctx_old))
    &&& (infer_keeps(st_new, st_old))
    &&& (ctx_old.nodes@[e as int]->Expr_0 is StructInit && r is Err ==> struct_init_unfit(ctx_old, st_old.symbols, e))
    &&& (ctx_old.nodes@[e as int]->Expr_0 is Assignment && r is Err ==> assignment_unfit(ctx_old, st_old.symbols, e))
    &&& (ctx_old.nodes@[e as int]->Expr_0 is EnumInit && r is Err ==> enum_init_unfit(ctx_old, st_old.symbols, e))
    &&& (ctx_old.nodes@[e as int]->Expr_0 is FunctionCall ==> call_outcome(
            expr_deep(ctx_old.nodes@, arena_items(ctx_old.symbols), ctx_old.types.types@, st_old.symbols,
                ctx_old.nodes@[e as int]->Expr_0->FunctionCall_func),
            ctx_old.nodes@[e as int]->Expr_0->FunctionCall_params@.len(),
            all_typed(ctx_old, st_old.symbols, ctx_old.nodes@[e as int]->Expr_0->FunctionCall_params@),
            e,
            r,
            st_new.constraints@.len() - st_old.constraints@.len(),
            ctx_new.types.types@,
        ))
    &&& (ctx_old.nodes@[e as int]->Expr_0 is FunctionCall ==> r is Ok ==> (expr_deep(ctx_old.nodes@,
            arena_items(ctx_old.symbols), ctx_old.types.types@, st_old.symbols,
            ctx_old.nodes@[e as int]->Expr_0->FunctionCall_func) matches Some(DeepType::Function(args, _))
            && args_constrained(
            ctx_new,
            st_old.symbols,
            st_new.constraints@,
            st_old.constraints@.len() as int,
            args,
            ctx_old.nodes@[e as int]->Expr_0->FunctionCall_params@,
        )))
    &&& (ctx_old.nodes@[e as int]->Expr_0 is StructInit ==> r is Ok ==> ({
            let values = ctx_old.nodes@[e as int]->Expr_0->StructInit_values@;
            crate::ir::typed::struct_decl_of(ctx_old.nodes@, arena_items(ctx_old.symbols), st_old.symbols,
                ctx_old.nodes@[e as int]->Expr_0->StructInit_struct_name.name@) matches Some(d)
            && (forall|k: int| 0 <= k < values.len() ==> crate::ir::typed::attr_pos(
                ctx_old.nodes@[d as int]->Struct_0.attrs@, (#[trigger] values[k]).name.name@) >= 0)
            && all_constrained(
                ctx_new,
                st_old.symbols,
                st_new.constraints@,
                st_old.constraints@.len() as int,
                init_sigs(ctx_old.nodes@, d, values),
                init_exprs(values),
                true,
            )
        }))
    &&& (ctx_old.nodes@[e as int]->Expr_0 is Assignment ==> r is Ok ==> ({
            let c = st_new.constraints@.last();
            let lhs = ctx_old.nodes@[e as int]->Expr_0->Assignment_lhs;
            let rhs = ctx_old.nodes@[e as int]->Expr_0->Assignment_rhs;
            &&& st_new.constraints@.len() == st_old.constraints@.len() + 1
            &&& c.0.id < ctx_new.types.types@.len()
            &&& c.1.id < ctx_new.types.types@.len()
            &&& expr_deep(ctx_old.nodes@, arena_items(ctx_old.symbols), ctx_old.types.types@, st_old.symbols, lhs)
                == Some(deep(ctx_new.types.types@, c.0))
            &&& expr_deep(ctx_old.nodes@, arena_items(ctx_old.symbols), ctx_old.types.types@, st_old.symbols, rhs)
                == Some(deep(ctx_new.types.types@, c.1))
        }))
    &&& (ctx_old.nodes@[e as int]->Expr_0 is EnumInit ==> r is Ok ==> (crate::symbols::symbol_resolver::enum_decl_of(
            ctx_old.nodes@, arena_items(ctx_old.symbols), st_old.symbols,
            ctx_old.nodes@[e as int]->Expr_0->EnumInit_enum_name@) matches Some(d) && ({
            let items = ctx_old.nodes@[e as int]->Expr_0->EnumInit_items@;
            let vals = ctx_old.nodes@[d as int]->Enum_0.values@;
            let k = crate::symbols::symbol_resolver::value_pos(vals, ctx_old.nodes@[e as int]->Expr_0->EnumInit_enum_value.name@);
            let n = if items.len() < vals[k].items@.len() { items.len() } else { vals[k].items@.len() };
            &&& 0 <= k
            &&& all_constrained(
                ctx_new,
                st_old.symbols,
                st_new.constraints@,
                st_old.constraints@.len() as int,
                vals[k].items@,
                items.take(n as int),
                false,
            )
        })))
    &&& (ctx_old.nodes@[e as int]->Expr_0 is MethodCall ==> call_outcome(
            method_deep(ctx_old.nodes@, arena_items(ctx_old.symbols), ctx_old.types.types@, st_old.symbols, e),
            ctx_old.nodes@[e as int]->Expr_0->MethodCall_params@.len(),
            all_typed(ctx_old, st_old.symbols, ctx_old.nodes@[e as int]->Expr_0->MethodCall_params@),
            e,
            r,
            st_new.constraints@.len() - st_old.constraints@.len(),
            ctx_new.types.types@,
        ))
    &&& (ctx_old.nodes@[e as int]->Expr_0 is MethodCall ==> r is Ok ==> (method_deep(ctx_old.nodes@,
            arena_items(ctx_old.symbols), ctx_old.types.types@, st_old.symbols, e) matches Some(DeepType::Function(args, _))
            && args_constrained(
            ctx_new,
            st_old.symbols,
            st_new.constraints@,
            st_old.constraints@.len() as int,
            args,
            ctx_old.nodes@[e as int]->Expr_0->MethodCall_params@,
        )))
    &&& (!(ctx_old.nodes@[e as int]->Expr_0 is FunctionCall || ctx_old.nodes@[e as int]->Expr_0 is MethodCall) ==> (
        r matches Err(err) ==> err is TypeEval))
    &&& (!(ctx_old.nodes@[e as int]->Expr_0 is FunctionCall || ctx_old.nodes@[e as int]->Expr_0 is MethodCall
            || ctx_old.nodes@[e as int]->Expr_0 is StructInit
            || ctx_old.nodes@[e as int]->Expr_0 is Assignment || ctx_old.nodes@[e as int]->Expr_0 is EnumInit) ==> r is Ok
            && st_new.constraints@ == st_old.constraints@ && *ctx_new == *ctx_old)
}

/// Gathers the constraints of expression `e`: the arguments of a call
/// against the argument types of the called function, the values of a
/// struct initialization against its attribute types, the two sides of an
/// assignment, the items of an enum value against their types.
pub fn infer_expr(st: &mut WalkState, ctx: &mut IrCtx, e: NodeRef) -> (r: Result<(), TypeCheckerError>)
    requires
        walk_ok(old(st), old(ctx)),
        is_expr(old(ctx).nodes@, e as int),
    ensures
        infer_expr_post(final(st), final(ctx), old(st), old(ctx), e, r),
{
    proof { assert(node_ok(ctx.nodes@, e as int, ctx.types.types@.len() as int)); }
    let kind: u8 = match &ctx.nodes[e] {
        Node::Expr(Expr::FunctionCall { .. }, _) => 0,
        Node::Expr(Expr::StructInit { .. }, _) => 1,
        Node::Expr(Expr::Assignment { .. }, _) => 2,
        Node::Expr(Expr::EnumInit { .. }, _) => 3,
        Node::Expr(Expr::MethodCall { .. }, _) => 4,
        _ => 5,
    };
    if kind == 0 {
        infer_call(st, ctx, e)
    } else if kind == 1 {
        infer_struct_init(st, ctx, e)
    } else if kind == 2 {
        infer_assignment(st, ctx, e)
    } else if kind == 3 {
        infer_enum_init(st, ctx, e)
    } else if kind == 4 {
        infer_method_call(st, ctx, e)
    } else {
        Ok(())
    }
}

/// The values that the statements `body` hand back, in order.
pub open spec fn returned(nodes: Seq<Node>, body: Seq<NodeRef>) -> Seq<NodeRef>
    decreases body.len(),
{
    if body.len() == 0 {
        Seq::empty()
    } else {
        match nodes[body.last() as int] {
            Node::Stmt(Stmt::Return(x), _) => returned(nodes, body.drop_last()).push(x),
            _ => returned(nodes, body.drop_last()),
        }
    }
}

/// From position `from` on, `cs` chains the type `ret` through the types of
/// the expressions `rs`: the first constraint ties `ret` to the type of the
/// first expression, each next one ties the type of an expression to that
/// of the next.
pub open spec fn chain_constrained(
    ctx: &IrCtx,
    z: crate::symbols::symbol_table::symbol_table_zipper::SymbolTableZipper,
    cs: Seq<TypeConstraint>,
    from: int,
    ret: TypeSignature,
    rs: Seq<NodeRef>,
) -> bool {
    &&& cs.len() == from + rs.len()
    &&& rs.len() > 0 ==> cs[from].0 == ret
    &&& forall|j: int| from <= j < cs.len() ==> (#[trigger] cs[j]).1.id < ctx.types.types@.len()
        && expr_deep(ctx.nodes@, arena_items(ctx.symbols), ctx.types.types@, z, rs[j - from]) == Some(deep(ctx.types.types@, cs[j].1))
    &&& forall|j: int| from < j < cs.len() ==> (#[trigger] cs[j]).0 == cs[j - 1].1
}

/// What gathering the constraints of the body of the function at node `f` does.
pub open spec fn infer_function_body_post(st_new: &WalkState, ctx_new: &IrCtx, st_old: &WalkState, ctx_old: &IrCtx, f: NodeRef, r: Result<(), TypeCheckerError>) -> bool {
    &&& (constraints_in(st_new.constraints@, ctx_new.types.types@.len() as int))
    &&& (eval_post(ctx_new, ctx_old))
    &&& (infer_keeps(st_new, st_old))
    &&& (r matches Err(e) ==> e is TypeEval)
    &&& (r is Err ==> exists|k: int| 0 <= k < ctx_old.nodes@[f as int]->Function_0.body@.len()
            && return_untyped(ctx_old, st_old.symbols, #[trigger] ctx_old.nodes@[f as int]->Function_0.body@[k]))
    &&& (r is Ok ==> ({
            let fun = ctx_old.nodes@[f as int]->Function_0;
            let rs = returned(ctx_old.nodes@, fun.body@);
            let from = st_old.constraints@.len() as int;
            &&& rs.len() > 0 ==> chain_constrained(ctx_new, st_old.symbols, st_new.constraints@, from, fun.return_type, rs)
            &&& rs.len() == 0 ==> st_new.constraints@.len() == from + 1
                && st_new.constraints@[from].0 == fun.return_type
                && deep(ctx_new.types.types@, st_new.constraints@[from].1) == DeepType::Builtin(BuiltinType::Void)
        }))
}

/// Constrains the return type of the function at node `f` to the types of
/// the values that its body hands back, one after the other, or to `Void`
/// when it hands back none.
#[verifier::loop_isolation(false)]
pub fn infer_function_body(st: &mut WalkState, ctx: &mut IrCtx, f: NodeRef) -> (r: Result<(), TypeCheckerError>)
    requires
        walk_ok(old(st), old(ctx)),
        is_func(old(ctx).nodes@, f as int),
    ensures
        infer_function_body_post(final(st), final(ctx), old(st), old(ctx), f, r),
{
    let ghost s0 = *st;
    let ghost c0 = *ctx;
    let ghost from = s0.constraints@.len() as int;
    proof { assert(node_ok(ctx.nodes@, f as int, ctx.types.types@.len() as int)); }
    let (ret, body) = match &ctx.nodes[f] {
        Node::Function(fun, _) => (fun.return_type, crate::ir::text::copy_refs(&fun.body)),
        _ => { return unreached(); },
    };
    let mut prev = ret;
    let mut any_returned = false;
    let mut i: usize = 0;
    while i < body.len()
        invariant
            i <= body@.len(),
            forall|k: int| 0 <= k < body@.len() ==> #[trigger] body@[k] < f && is_stmt(c0.nodes@, body@[k] as int),
            eval_post(ctx, &c0),
            infer_keeps(st, &s0),
            walk_ok(st, ctx),
            prev.id < ctx.types.types@.len(),
            any_returned == (returned(c0.nodes@, body@.take(i as int)).len() > 0),
            !any_returned ==> prev == ret && st.constraints@.len() == from,
            any_returned ==> prev == st.constraints@.last().1,
            chain_constrained(ctx, s0.symbols, st.constraints@, from, ret, returned(c0.nodes@, body@.take(i as int))),
        decreases body@.len() - i,
    {
        let s = body[i];
        let ghost prev_rs = returned(c0.nodes@, body@.take(i as int));
        proof {
            assert(node_ok(ctx.nodes@, s as int, ctx.types.types@.len() as int));
            assert(body@.take(i + 1).drop_last() =~= body@.take(i as int));
        }
        let x = match &ctx.nodes[s] {
            Node::Stmt(Stmt::Return(x), _) => Some(*x),
            _ => None,
        };
        match x {
            Some(x) => {
                let ghost c1 = *ctx;
                let t = match eval_type(ctx, &st.symbols, x) {
                    Ok(t) => t,
                    Err(err) => {
                        proof {
                            lemma_eval_post_trans(ctx, &c1, &c0);
                            if expr_deep(c0.nodes@, arena_items(c0.symbols), c0.types.types@, s0.symbols, x) is Some {
                                crate::ir::typed::lemma_expr_deep_extends(c0.nodes@, arena_items(c0.symbols), arena_ident(c0.symbols),
                                    c1.types.types@, c0.types.types@, s0.symbols, x);
                            }
                            assert(return_untyped(&c0, s0.symbols, body@[i as int]));
                        }
                        return Err(TypeCheckerError::TypeEval(err));
                    },
                };
                proof {
                    lemma_eval_post_trans(ctx, &c1, &c0);
                    crate::ir::typed::lemma_expr_deep_extends(c1.nodes@, arena_items(c1.symbols), arena_ident(c1.symbols),
                        ctx.types.types@, c1.types.types@, s0.symbols, x);
                    assert forall|j: int| from <= j < st.constraints@.len() implies (#[trigger] st.constraints@[j]).1.id
                        < ctx.types.types@.len() && expr_deep(ctx.nodes@, arena_items(ctx.symbols), ctx.types.types@,
                        s0.symbols, prev_rs[j - from]) == Some(deep(ctx.types.types@, st.constraints@[j].1)) by {
                        crate::ir::typed::lemma_deep_extends(ctx.types.types@, c1.types.types@, st.constraints@[j].1);
                        crate::ir::typed::lemma_expr_deep_extends(c1.nodes@, arena_items(c1.symbols), arena_ident(c1.symbols),
                            ctx.types.types@, c1.types.types@, s0.symbols, prev_rs[j - from]);
                    }
                }
                st.constraints.push_back(TypeConstraint(prev, t));
                prev = t;
                any_returned = true;
                proof {
                    assert(returned(c0.nodes@, body@.take(i + 1)) =~= prev_rs.push(x));
                }
            },
            None => {
                proof {
                    assert(returned(c0.nodes@, body@.take(i + 1)) =~= prev_rs);
                }
            },
        }
        i = i + 1;
    }
    proof { assert(body@.take(body@.len() as int) =~= body@); }
    if !any_returned {
        let void = ctx.types.builtin(BuiltinType::Void);
        st.constraints.push_back(TypeConstraint(ret, void));
    }
    Ok(())
}

/// A substitution of a table: its entries replace type variables of the
/// table, by the number of their entry, with types of the table.
pub open spec fn subst_ok(types: Seq<TypeSignatureValue>, s: Map<usize, TypeSignature>) -> bool {
    forall|k: usize| #[trigger] s.contains_key(k) ==> k < types.len() && s[k].id < types.len()
        && types[k as int]@ is TypeVariable
}

/// The type that substitution `s` gives `t`: the type of its entry for
/// `t`, or `t` itself.
pub open spec fn subst_get(s: Map<usize, TypeSignature>, t: TypeSignature) -> TypeSignature {
    if s.contains_key(t.id) {
        s[t.id]
    } else {
        t
    }
}

/// The type that substitution `s` gives `t`.
pub fn lookup_subst(s: &HashMap<usize, TypeSignature>, t: TypeSignature) -> (r: TypeSignature)
    ensures
        r == subst_get(s@, t),
{
    broadcast use vstd::std_specs::hash::group_hash_axioms;
    match s.get(&t.id) {
        Some(v) => *v,
        None => t,
    }
}

/// Records in substitution `s` that `k` stands for `v`, replacing an
/// earlier entry for `k`.
pub fn insert_subst(s: &mut HashMap<usize, TypeSignature>, k: TypeSignature, v: TypeSignature)
    ensures
        final(s)@ == old(s)@.insert(k.id, v),
{
    broadcast use vstd::std_specs::hash::group_hash_axioms;
    s.insert(k.id, v);
}

/// Every constraint refers to types of a table of length `len`.
pub open spec fn constraints_in(cs: Seq<TypeConstraint>, len: int) -> bool {
    forall|i: int| 0 <= i < cs.len() ==> (#[trigger] cs[i]).0.id < len && cs[i].1.id < len
}

/// The type that the substitution `m` gives `t`: its entry, or `t` itself.
pub open spec fn lookup_in(m: Map<TypeSignature, TypeSignature>, t: TypeSignature) -> TypeSignature {
    if m.dom().contains(t) {
        m[t]
    } else {
        t
    }
}

/// `t` is a type variable of the table.
pub open spec fn is_type_var(types: Seq<TypeSignatureValue>, t: TypeSignature) -> bool {
    types[t.id as int]@ is TypeVariable
}

/// The constraints between the same positions of `xs` and `ys`.
pub open spec fn pairwise(xs: Seq<TypeSignature>, ys: Seq<TypeSignature>) -> Seq<TypeConstraint> {
    Seq::new(xs.len(), |i: int| TypeConstraint(xs[i], ys[i]))
}

/// How solving a queue of constraints ends.
pub enum Solution {
    /// Every constraint was met; the substitution found.
    Solved(Map<TypeSignature, TypeSignature>),
    /// The steps ran out; the constraints still queued.
    OutOfSteps(Seq<TypeConstraint>),
    /// Only constraints between two type variables were left.
    Undeterminable,
    /// Two types that cannot be the same.
    Conflicting(TypeSignature, TypeSignature),
    /// Two function types with different numbers of arguments.
    ArgCountMismatch(TypeSignature, TypeSignature),
}

/// Solving the queue `q` from the substitution `m`, where `count`
/// constraints between two type variables were put back since the last one
/// that made progress, in at most `fuel` steps. Each step takes the first
/// constraint, with both sides looked up in `m`: a type variable against a
/// type binds it; two type variables go to the back of the queue, unless
/// every remaining constraint was put back already; tuples and functions
/// queue the constraints between their parts; other types must coerce.
pub open spec fn solve(
    types: Seq<TypeSignatureValue>,
    q: Seq<TypeConstraint>,
    m: Map<TypeSignature, TypeSignature>,
    count: nat,
    fuel: nat,
) -> Solution
    decreases fuel,
{
    if q.len() == 0 {
        Solution::Solved(m)
    } else if fuel == 0 {
        Solution::OutOfSteps(q)
    } else {
        let rest = q.drop_first();
        let a = lookup_in(m, q[0].0);
        let b = lookup_in(m, q[0].1);
        if is_type_var(types, a) && is_type_var(types, b) {
            if count < rest.len() {
                solve(types, rest.push(TypeConstraint(a, b)), m, count + 1, (fuel - 1) as nat)
            } else {
                Solution::Undeterminable
            }
        } else if is_type_var(types, a) {
            solve(types, rest, m.insert(a, b), 0, (fuel - 1) as nat)
        } else if is_type_var(types, b) {
            solve(types, rest, m.insert(b, a), 0, (fuel - 1) as nat)
        } else {
            match (types[a.id as int]@, types[b.id as int]@) {
                (TypeValue::Tuple(xs), TypeValue::Tuple(ys)) => if xs.len() != ys.len() {
                    Solution::Conflicting(a, b)
                } else {
                    solve(types, rest + pairwise(xs, ys), m, 0, (fuel - 1) as nat)
                },
                (TypeValue::Function(xs, ra), TypeValue::Function(ys, rb)) => if xs.len() != ys.len() {
                    Solution::ArgCountMismatch(a, b)
                } else {
                    solve(types, rest.push(TypeConstraint(ra, rb)) + pairwise(xs, ys), m, count, (fuel - 1) as nat)
                },
                _ => if spec_coerce(types, a, b) is None {
                    Solution::Conflicting(a, b)
                } else {
                    solve(types, rest, m, 0, (fuel - 1) as nat)
                },
            }
        }
    }
}

/// Both sides of constraint `c`, looked up in `m`, are type variables.
pub open spec fn between_vars(types: Seq<TypeSignatureValue>, m: Map<TypeSignature, TypeSignature>, c: TypeConstraint) -> bool {
    is_type_var(types, lookup_in(m, c.0)) && is_type_var(types, lookup_in(m, c.1))
}

/// How many constraints of `q` are between two type variables, looked up
/// in `m`.
pub open spec fn count_between_vars(types: Seq<TypeSignatureValue>, m: Map<TypeSignature, TypeSignature>, q: Seq<TypeConstraint>) -> nat
    decreases q.len(),
{
    if q.len() == 0 {
        0
    } else {
        count_between_vars(types, m, q.drop_last()) + if between_vars(types, m, q.last()) {
            1nat
        } else {
            0nat
        }
    }
}

/// A queue that holds a constraint not between two type variables holds
/// more constraints than those between two type variables.
proof fn lemma_count_between_vars_below(types: Seq<TypeSignatureValue>, m: Map<TypeSignature, TypeSignature>, q: Seq<TypeConstraint>, j: int)
    requires
        0 <= j < q.len(),
        !between_vars(types, m, q[j]),
    ensures
        count_between_vars(types, m, q) < q.len(),
    decreases q.len(),
{
    lemma_count_between_vars_at_most(types, m, q.drop_last());
    if j < q.len() - 1 {
        assert(q.drop_last()[j] == q[j]);
        lemma_count_between_vars_below(types, m, q.drop_last(), j);
    }
}

/// At most every constraint of `q` is between two type variables.
proof fn lemma_count_between_vars_at_most(types: Seq<TypeSignatureValue>, m: Map<TypeSignature, TypeSignature>, q: Seq<TypeConstraint>)
    ensures
        count_between_vars(types, m, q) <= q.len(),
    decreases q.len(),
{
    if q.len() > 0 {
        lemma_count_between_vars_at_most(types, m, q.drop_last());
    }
}

/// Solving does not give up while work remains: a constraint between two
/// type variables at the front of the queue is put back, the others being
/// taken first, whenever the rest of the queue holds a constraint that is
/// not between two type variables and the constraints put back in a row so
/// far are no more than those of the rest that are between two type
/// variables.
pub proof fn lemma_waits_while_work_remains(
    types: Seq<TypeSignatureValue>,
    q: Seq<TypeConstraint>,
    m: Map<TypeSignature, TypeSignature>,
    count: nat,
    fuel: nat,
    j: int,
)
    requires
        q.len() > 0,
        between_vars(types, m, q[0]),
        1 <= j < q.len(),
        !between_vars(types, m, q[j]),
        count <= count_between_vars(types, m, q.drop_first()),
    ensures
        solve(types, q, m, count, fuel + 1) == solve(
            types,
            q.drop_first().push(TypeConstraint(lookup_in(m, q[0].0), lookup_in(m, q[0].1))),
            m,
            count + 1,
            fuel,
        ),
{
    let rest = q.drop_first();
    assert(rest[j - 1] == q[j]);
    lemma_count_between_vars_below(types, m, rest, j - 1);
}

/// Solving gives up once it has gone round the whole queue: when a
/// constraint between two type variables comes to the front after as many
/// constraints in a row were put back as the rest of the queue holds, the
/// types are undeterminable.
pub proof fn lemma_gives_up_after_full_round(
    types: Seq<TypeSignatureValue>,
    q: Seq<TypeConstraint>,
    m: Map<TypeSignature, TypeSignature>,
    count: nat,
    fuel: nat,
)
    requires
        q.len() > 0,
        between_vars(types, m, q[0]),
        count >= q.len() - 1,
    ensures
        solve(types, q, m, count, fuel + 1) == Solution::Undeterminable,
{
}

/// Solves the constraints `cs` one after the other, into a substitution of
/// type variables: a type variable constrained to a type stands for it,
/// tuples and functions are constrained part by part, and other types must
/// coerce one to the other. A constraint between two type variables waits
/// until the others are solved; when only such constraints remain, the
/// types cannot be worked out. At most `fuel` steps are taken.
pub fn resolve_constraints(types: &TypeTable, cs: VecDeque<TypeConstraint>, fuel: usize) -> (r: Result<HashMap<usize, TypeSignature>, TypeCheckerError>)
    requires
        types.wf(),
        constraints_in(cs@, types.types@.len() as int),
    ensures
        r matches Ok(s) ==> subst_ok(types.types@, s@),
        r matches Err(TypeCheckerError::ConflictingTypes(a, b)) ==> types.contains(a) && types.contains(b) && (
            spec_coerce(types.types@, a, b) is None || (types.value(a) is Tuple && types.value(b) is Tuple)),
        r matches Err(TypeCheckerError::FunctionError(FunctionError::ArgCountMismatch(a, b))) ==> types.contains(a)
            && types.contains(b) && types.value(a)->Function_0.len() != types.value(b)->Function_0.len(),
        match solve(types.types@, cs@, Map::empty(), 0, fuel as nat) {
            Solution::Solved(m) => r matches Ok(s) && forall|t: TypeSignature| #[trigger] subst_get(s@, t) == lookup_in(m, t),
            Solution::OutOfSteps(q) => r matches Err(TypeCheckerError::UnresolvableTypeConstraints(v)) && v@ == q,
            Solution::Undeterminable => r matches Err(TypeCheckerError::UndeterminableTypes(v)) && v@.len() == 0,
            Solution::Conflicting(a, b) => r matches Err(TypeCheckerError::ConflictingTypes(x, y)) && x == a && y == b,
            Solution::ArgCountMismatch(a, b) => r matches Err(
                TypeCheckerError::FunctionError(FunctionError::ArgCountMismatch(x, y)),
            ) && x == a && y == b,
        },
{
    let ghost goal = solve(types.types@, cs@, Map::empty(), 0, fuel as nat);
    let mut queue = cs;
    let mut subst: HashMap<usize, TypeSignature> = HashMap::new();
    let ghost mut m: Map<TypeSignature, TypeSignature> = Map::empty();
    let mut unresolvable_count: usize = 0;
    let mut steps: usize = 0;
    while queue.len() > 0
        invariant
            types.wf(),
            steps <= fuel,
            constraints_in(queue@, types.types@.len() as int),
            subst_ok(types.types@, subst@),
            forall|t: TypeSignature| #[trigger] subst_get(subst@, t) == lookup_in(m, t),
            solve(types.types@, queue@, m, unresolvable_count as nat,
                (fuel - steps) as nat) == goal,
            goal == solve(types.types@, cs@, Map::empty(), 0, fuel as nat),
        decreases fuel - steps,
    {
        let ghost q = queue@;
        let ghost f0 = (fuel - steps) as nat;
        let ghost n0 = unresolvable_count as nat;
        if steps >= fuel {
            proof {
                assert(goal == Solution::OutOfSteps(q));
            }
            return Err(TypeCheckerError::UnresolvableTypeConstraints(queue));
        }
        steps = steps + 1;
        let TypeConstraint(a0, b0) = match queue.pop_front() {
            Some(c) => c,
            None => { return unreached(); },
        };
        proof {
            assert(q[0] == TypeConstraint(a0, b0));
            assert(queue@ =~= q.drop_first());
        }
        let a = lookup_subst(&subst, a0);
        let b = lookup_subst(&subst, b0);
        proof {
            if subst@.contains_key(a0.id) {
                assert(subst@[a0.id].id < types.types@.len());
            }
            if subst@.contains_key(b0.id) {
                assert(subst@[b0.id].id < types.types@.len());
            }
            assert(a == lookup_in(m, a0));
            assert(b == lookup_in(m, b0));
        }
        let a_var = match types.get(a) {
            TypeSignatureValue::TypeVariable(_) => true,
            _ => false,
        };
        let b_var = match types.get(b) {
            TypeSignatureValue::TypeVariable(_) => true,
            _ => false,
        };
        if a_var && b_var {
            if unresolvable_count < queue.len() {
                unresolvable_count = unresolvable_count + 1;
                queue.push_back(TypeConstraint(a, b));
            } else {
                proof {
                    assert(solve(types.types@, q, m, n0, f0) == Solution::Undeterminable);
                }
                return Err(TypeCheckerError::UndeterminableTypes(Vec::new()));
            }
        } else if a_var {
            unresolvable_count = 0;
            let ghost s0 = subst@;
            insert_subst(&mut subst, a, b);
            proof {
                let m0 = m;
                m = m.insert(a, b);
                assert forall|t: TypeSignature| #[trigger] subst_get(subst@, t) == lookup_in(m, t) by {
                    if t.id == a.id {
                        assert(t == a);
                    } else {
                        assert(subst_get(s0, t) == lookup_in(m0, t));
                    }
                }
            }
        } else if b_var {
            unresolvable_count = 0;
            let ghost s0 = subst@;
            insert_subst(&mut subst, b, a);
            proof {
                let m0 = m;
                m = m.insert(b, a);
                assert forall|t: TypeSignature| #[trigger] subst_get(subst@, t) == lookup_in(m, t) by {
                    if t.id == b.id {
                        assert(t == b);
                    } else {
                        assert(subst_get(s0, t) == lookup_in(m0, t));
                    }
                }
            }
        } else {
            match (types.get(a), types.get(b)) {
                (TypeSignatureValue::Tuple(xs), TypeSignatureValue::Tuple(ys)) => {
                    unresolvable_count = 0;
                    if xs.len() != ys.len() {
                        proof {
                            assert(types.types@[a.id as int]@ == TypeValue::Tuple(xs@));
                            assert(types.types@[b.id as int]@ == TypeValue::Tuple(ys@));
                            assert(solve(types.types@, q, m, n0, f0) == Solution::Conflicting(a, b));
                        }
                        return Err(TypeCheckerError::ConflictingTypes(a, b));
                    }
                    let ghost before = queue@;
                    let mut k: usize = 0;
                    while k < xs.len()
                        invariant
                            types.wf(),
                            k <= xs@.len(),
                            xs@.len() == ys@.len(),
                            types.value(a) == TypeValue::Tuple(xs@),
                            types.value(b) == TypeValue::Tuple(ys@),
                            types.contains(a),
                            types.contains(b),
                            constraints_in(queue@, types.types@.len() as int),
                            queue@ == before + pairwise(xs@.take(k as int), ys@.take(k as int)),
                        decreases xs@.len() - k,
                    {
                        proof {
                            assert(crate::ir::types::type_children(types.value(a))[k as int] == xs@[k as int]);
                            assert(crate::ir::types::type_children(types.value(b))[k as int] == ys@[k as int]);
                        }
                        queue.push_back(TypeConstraint(xs[k], ys[k]));
                        k = k + 1;
                        proof {
                            assert(queue@ =~= before + pairwise(xs@.take(k as int), ys@.take(k as int)));
                        }
                    }
                    proof {
                        assert(xs@.take(xs@.len() as int) =~= xs@);
                        assert(ys@.take(ys@.len() as int) =~= ys@);
                        assert(queue@ =~= before + pairwise(xs@, ys@));
                    }
                },
                (
                    TypeSignatureValue::Function { args: xs, return_type: ra },
                    TypeSignatureValue::Function { args: ys, return_type: rb },
                ) => {
                    if xs.len() != ys.len() {
                        return Err(TypeCheckerError::FunctionError(FunctionError::ArgCountMismatch(a, b)));
                    }
                    proof {
                        assert(crate::ir::types::type_children(types.value(a))[xs@.len() as int] == *ra);
                        assert(crate::ir::types::type_children(types.value(b))[ys@.len() as int] == *rb);
                    }
                    let ghost before0 = queue@;
                    queue.push_back(TypeConstraint(*ra, *rb));
                    let ghost before = queue@;
                    let mut k: usize = 0;
                    while k < xs.len()
                        invariant
                            types.wf(),
                            k <= xs@.len(),
                            xs@.len() == ys@.len(),
                            types.value(a) == TypeValue::Function(xs@, *ra),
                            types.value(b) == TypeValue::Function(ys@, *rb),
                            types.contains(a),
                            types.contains(b),
                            constraints_in(queue@, types.types@.len() as int),
                            queue@ == before + pairwise(xs@.take(k as int), ys@.take(k as int)),
                        decreases xs@.len() - k,
                    {
                        proof {
                            assert(crate::ir::types::type_children(types.value(a))[k as int] == xs@[k as int]);
                            assert(crate::ir::types::type_children(types.value(b))[k as int] == ys@[k as int]);
                        }
                        queue.push_back(TypeConstraint(xs[k], ys[k]));
                        k = k + 1;
                        proof {
                            assert(queue@ =~= before + pairwise(xs@.take(k as int), ys@.take(k as int)));
                        }
                    }
                    proof {
                        assert(xs@.take(xs@.len() as int) =~= xs@);
                        assert(ys@.take(ys@.len() as int) =~= ys@);
                        assert(queue@ =~= before0.push(TypeConstraint(*ra, *rb)) + pairwise(xs@, ys@));
                    }
                },
                _ => {
                    unresolvable_count = 0;
                    if coerce(a, b, types).is_none() {
                        return Err(TypeCheckerError::ConflictingTypes(a, b));
                    }
                },
            }
        }
    }
    Ok(subst)
}

/// A substitution as the solver builds it: it binds type variables only,
/// each to a type that is no type variable.
pub open spec fn subst_shaped(types: Seq<TypeSignatureValue>, m: Map<TypeSignature, TypeSignature>) -> bool {
    forall|k: TypeSignature| #[trigger] m.dom().contains(k) ==> is_type_var(types, k) && !is_type_var(types, m[k])
}

/// The types `a` and `b`, as they stand after looking them up, agree to
/// depth `n`: they are the same type, or neither is a type variable and they
/// are tuples, or functions, of as many parts whose parts agree (to depth
/// `n - 1`), or other types of which one coerces to the other.
pub open spec fn agree(types: Seq<TypeSignatureValue>, m: Map<TypeSignature, TypeSignature>, a: TypeSignature, b: TypeSignature, n: nat) -> bool
    decreases n, 0nat, 0nat,
{
    a == b || (!is_type_var(types, a) && !is_type_var(types, b) && match (types[a.id as int]@, types[b.id as int]@) {
        (TypeValue::Tuple(xs), TypeValue::Tuple(ys)) => xs.len() == ys.len() && (n == 0 || parts_meet(types, m, xs, ys,
            (n - 1) as nat)),
        (TypeValue::Function(xs, ra), TypeValue::Function(ys, rb)) => xs.len() == ys.len() && (n == 0 || (meets(types, m,
            TypeConstraint(ra, rb), (n - 1) as nat) && parts_meet(types, m, xs, ys, (n - 1) as nat))),
        _ => spec_coerce(types, a, b) is Some,
    })
}

/// The parts `xs` and `ys`, position by position, meet to depth `n`.
pub open spec fn parts_meet(types: Seq<TypeSignatureValue>, m: Map<TypeSignature, TypeSignature>, xs: Seq<TypeSignature>, ys: Seq<TypeSignature>, n: nat) -> bool
    decreases n, 2nat, xs.len(),
{
    xs.len() == 0 || (meets(types, m, TypeConstraint(xs.last(), ys[xs.len() - 1]), n)
        && parts_meet(types, m, xs.drop_last(), ys, n))
}

/// The constraint `c` is met to depth `n` under the substitution `m`: its
/// two sides agree once looked up in `m`.
pub open spec fn meets(types: Seq<TypeSignatureValue>, m: Map<TypeSignature, TypeSignature>, c: TypeConstraint, n: nat) -> bool
    decreases n, 1nat, 0nat,
{
    agree(types, m, lookup_in(m, c.0), lookup_in(m, c.1), n)
}

/// Parts that meet one by one meet together.
proof fn lemma_parts_meet(types: Seq<TypeSignatureValue>, m: Map<TypeSignature, TypeSignature>, xs: Seq<TypeSignature>, ys: Seq<TypeSignature>, n: nat)
    requires
        xs.len() <= ys.len(),
        forall|k: int| 0 <= k < xs.len() ==> #[trigger] meets(types, m, TypeConstraint(xs[k], ys[k]), n),
    ensures
        parts_meet(types, m, xs, ys, n),
    decreases xs.len(),
{
    if xs.len() > 0 {
        assert(meets(types, m, TypeConstraint(xs[xs.len() - 1], ys[xs.len() - 1]), n));
        assert forall|k: int| 0 <= k < xs.drop_last().len() implies #[trigger] meets(types, m, TypeConstraint(xs.drop_last()[k], ys[k]), n) by {
            assert(xs.drop_last()[k] == xs[k]);
            assert(meets(types, m, TypeConstraint(xs[k], ys[k]), n));
        }
        lemma_parts_meet(types, m, xs.drop_last(), ys, n);
    }
}

/// Looking up in a larger substitution of the same shape what a smaller one
/// gives is looking up the original.
proof fn lemma_lookup_grows(types: Seq<TypeSignatureValue>, m: Map<TypeSignature, TypeSignature>, m2: Map<TypeSignature, TypeSignature>, t: TypeSignature)
    requires
        subst_shaped(types, m),
        subst_shaped(types, m2),
        forall|k: TypeSignature| #[trigger] m.dom().contains(k) ==> m2.dom().contains(k) && m2[k] == m[k],
    ensures
        lookup_in(m2, lookup_in(m, t)) == lookup_in(m2, t),
{
    if m.dom().contains(t) {
        assert(!is_type_var(types, m[t]));
        assert(!m2.dom().contains(m[t]));
    }
}

/// A solution that the solver settles on meets every constraint that it was
/// given, to every depth, and keeps every binding that it started from.
pub proof fn lemma_solution_meets_constraints(
    types: Seq<TypeSignatureValue>,
    q: Seq<TypeConstraint>,
    m: Map<TypeSignature, TypeSignature>,
    count: nat,
    fuel: nat,
)
    requires
        subst_shaped(types, m),
        solve(types, q, m, count, fuel) is Solved,
    ensures
        ({
            let m2 = solve(types, q, m, count, fuel)->Solved_0;
            &&& subst_shaped(types, m2)
            &&& forall|k: TypeSignature| #[trigger] m.dom().contains(k) ==> m2.dom().contains(k) && m2[k] == m[k]
            &&& forall|i: int, n: nat| 0 <= i < q.len() ==> #[trigger] meets(types, m2, q[i], n)
        }),
    decreases fuel,
{
    let m2 = solve(types, q, m, count, fuel)->Solved_0;
    if q.len() == 0 {
        return;
    }
    let rest = q.drop_first();
    let a = lookup_in(m, q[0].0);
    let b = lookup_in(m, q[0].1);
    if is_type_var(types, a) && is_type_var(types, b) {
        let q2 = rest.push(TypeConstraint(a, b));
        lemma_solution_meets_constraints(types, q2, m, count + 1, (fuel - 1) as nat);
        assert forall|i: int, n: nat| 0 <= i < q.len() implies #[trigger] meets(types, m2, q[i], n) by {
            if i == 0 {
                lemma_lookup_grows(types, m, m2, q[0].0);
                lemma_lookup_grows(types, m, m2, q[0].1);
                assert(meets(types, m2, q2[q2.len() - 1], n));
            } else {
                assert(q[i] == q2[i - 1]);
            }
        }
    } else if is_type_var(types, a) || is_type_var(types, b) {
        let (v, t) = if is_type_var(types, a) { (a, b) } else { (b, a) };
        let m1 = m.insert(v, t);
        assert(!m.dom().contains(v)) by {
            if m.dom().contains(v) {
                if is_type_var(types, a) {
                    if m.dom().contains(q[0].0) {
                        assert(!is_type_var(types, m[q[0].0]));
                    }
                } else {
                    if m.dom().contains(q[0].1) {
                        assert(!is_type_var(types, m[q[0].1]));
                    }
                }
                assert(!is_type_var(types, m[v]));
            }
        }
        assert(subst_shaped(types, m1));
        lemma_solution_meets_constraints(types, rest, m1, 0, (fuel - 1) as nat);
        assert forall|k: TypeSignature| #[trigger] m.dom().contains(k) implies m2.dom().contains(k) && m2[k] == m[k] by {
            assert(m1.dom().contains(k) && m1[k] == m[k]);
        }
        assert forall|i: int, n: nat| 0 <= i < q.len() implies #[trigger] meets(types, m2, q[i], n) by {
            if i == 0 {
                lemma_lookup_grows(types, m, m2, q[0].0);
                lemma_lookup_grows(types, m, m2, q[0].1);
                assert(m1.dom().contains(v) && m1[v] == t);
                assert(m2.dom().contains(v) && m2[v] == t);
                assert(!m2.dom().contains(t));
            } else {
                assert(q[i] == rest[i - 1]);
            }
        }
    } else {
        match (types[a.id as int]@, types[b.id as int]@) {
            (TypeValue::Tuple(xs), TypeValue::Tuple(ys)) => {
                let q2 = rest + pairwise(xs, ys);
                lemma_solution_meets_constraints(types, q2, m, 0, (fuel - 1) as nat);
                assert forall|i: int, n: nat| 0 <= i < q.len() implies #[trigger] meets(types, m2, q[i], n) by {
                    if i == 0 {
                        lemma_lookup_grows(types, m, m2, q[0].0);
                        lemma_lookup_grows(types, m, m2, q[0].1);
                        assert(!m2.dom().contains(a));
                        assert(!m2.dom().contains(b));
                        assert(xs.len() == ys.len());
                        if n > 0 {
                            assert forall|k: int| 0 <= k < xs.len() implies #[trigger] meets(types, m2, TypeConstraint(xs[k], ys[k]), (n - 1) as nat) by {
                                assert(q2[rest.len() + k] == TypeConstraint(xs[k], ys[k]));
                            }
                            lemma_parts_meet(types, m2, xs, ys, (n - 1) as nat);
                        }
                    } else {
                        assert(q[i] == q2[i - 1]);
                    }
                }
            },
            (TypeValue::Function(xs, ra), TypeValue::Function(ys, rb)) => {
                let q2 = rest.push(TypeConstraint(ra, rb)) + pairwise(xs, ys);
                lemma_solution_meets_constraints(types, q2, m, count, (fuel - 1) as nat);
                assert forall|i: int, n: nat| 0 <= i < q.len() implies #[trigger] meets(types, m2, q[i], n) by {
                    if i == 0 {
                        lemma_lookup_grows(types, m, m2, q[0].0);
                        lemma_lookup_grows(types, m, m2, q[0].1);
                        assert(!m2.dom().contains(a));
                        assert(!m2.dom().contains(b));
                        assert(xs.len() == ys.len());
                        if n > 0 {
                            assert(q2[rest.len() as int] == TypeConstraint(ra, rb));
                            assert(meets(types, m2, q2[rest.len() as int], (n - 1) as nat));
                            assert forall|k: int| 0 <= k < xs.len() implies #[trigger] meets(types, m2, TypeConstraint(xs[k], ys[k]), (n - 1) as nat) by {
                                assert(q2[rest.len() + 1 + k] == TypeConstraint(xs[k], ys[k]));
                            }
                            lemma_parts_meet(types, m2, xs, ys, (n - 1) as nat);
                        }
                    } else {
                        assert(q[i] == q2[i - 1]);
                    }
                }
            },
            _ => {
                lemma_solution_meets_constraints(types, rest, m, 0, (fuel - 1) as nat);
                assert forall|i: int, n: nat| 0 <= i < q.len() implies #[trigger] meets(types, m2, q[i], n) by {
                    if i == 0 {
                        lemma_lookup_grows(types, m, m2, q[0].0);
                        lemma_lookup_grows(types, m, m2, q[0].1);
                        assert(!m2.dom().contains(a));
                        assert(!m2.dom().contains(b));
                    } else {
                        assert(q[i] == rest[i - 1]);
                    }
                }
            },
        }
    }
}

} // verus!
