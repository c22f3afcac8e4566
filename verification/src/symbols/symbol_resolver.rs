use vstd::prelude::*;

use crate::ir::context::{sigs_in, IrCtx, TypeTable};
use crate::ir::ir_walker::{lemma_nodes_compat_refl, lemma_nodes_compat_trans, node_compat, nodes_compat};
use crate::ir::node::{
    expr_ok, is_enum, is_expr, is_struct, is_var, node_ok, nodes_wf, EnumValue, Expr, Ident, IdentKey, KeyView, Node,
    NodeRef, Span,
};
use crate::ir::typed::{attr_pos, lemma_attr_pos_at, lemma_attr_pos_none, struct_decl_of, eval_type, expr_deep};
use crate::ir::text::{chars_eq, copy_chars, copy_refs};
use crate::type_checker::{SymbolResolutionError, TypeCheckerError};
use crate::ir::ir_walker::{pass_error, program_walked, same_scope, walk_keeps, walk_ok, walk_program, walk_step, Pass, WalkState};
use crate::symbols::symbol_table::SymbolTable;
use crate::ir::typed::{
    deep, deep_all, eval_post, item_deep, item_type, lemma_deep_extends, lemma_deep_value,
    lemma_eval_post_trans, lemma_item_deep_extends, table_extends, DeepType,
};
use crate::ir::types::{type_children, TypeEvalError, TypeSignature, TypeSignatureValue, TypeValue};
use crate::symbols::symbol_table::symbol_table_zipper::{lemma_zipper_lookup_ok, zipper_lookup, zipper_ok, SymbolTableZipper};
use crate::symbols::symbol_table::{arena_ident, arena_items, get_symbol, symbol_item, SymbolValue, SymbolValueItem};

verus! {

/// The types that the references `ts`, all before `bound`, stand for once
/// the type names in them are resolved; none when a name refers to nothing.
pub open spec fn resolved_sigs(
    nodes: Seq<Node>,
    items: Seq<SymbolValueItem>,
    types: Seq<TypeSignatureValue>,
    z: SymbolTableZipper,
    ts: Seq<TypeSignature>,
    bound: int,
) -> Option<Seq<DeepType>>
    decreases bound, ts.len(),
{
    if ts.len() == 0 {
        Some(Seq::empty())
    } else if ts.last().id < bound {
        match resolved_sigs(nodes, items, types, z, ts.drop_last(), bound) {
            Some(ds) => match resolved_sig(nodes, items, types, z, ts.last()) {
                Some(d) => Some(ds.push(d)),
                None => None,
            },
            None => None,
        }
    } else {
        None
    }
}

/// The type that `t` stands for once the type names in it are resolved at
/// the zipper's position: a name becomes the type of what it refers to.
pub open spec fn resolved_sig(
    nodes: Seq<Node>,
    items: Seq<SymbolValueItem>,
    types: Seq<TypeSignatureValue>,
    z: SymbolTableZipper,
    t: TypeSignature,
) -> Option<DeepType>
    decreases t.id + 1, 0int,
{
    if t.id >= types.len() {
        None
    } else {
        match types[t.id as int]@ {
            TypeValue::Unresolved(n) => match zipper_lookup(nodes, items, z, KeyView::Named(n)) {
                Some(s) => Some(item_deep(nodes, types, symbol_item(items, s))),
                None => None,
            },
            TypeValue::Tuple(ids) => match resolved_sigs(nodes, items, types, z, ids, t.id as int) {
                Some(ds) => Some(DeepType::Tuple(ds)),
                None => None,
            },
            TypeValue::Function(args, ret) => match resolved_sigs(nodes, items, types, z, args, t.id as int) {
                Some(ds) => if ret.id < t.id {
                    match resolved_sig(nodes, items, types, z, ret) {
                        Some(r) => Some(DeepType::Function(ds, Box::new(r))),
                        None => None,
                    }
                } else {
                    None
                },
                None => None,
            },
            _ => Some(deep(types, t)),
        }
    }
}

pub proof fn lemma_resolved_sigs_extends(
    nodes: Seq<Node>,
    items: Seq<SymbolValueItem>,
    aid: u32,
    new: Seq<TypeSignatureValue>,
    old: Seq<TypeSignatureValue>,
    z: SymbolTableZipper,
    ts: Seq<TypeSignature>,
    bound: int,
)
    requires
        table_extends(new, old),
        nodes_wf(nodes, old.len() as int),
        zipper_ok(nodes, items, aid, z),
        bound <= old.len(),
    ensures
        resolved_sigs(nodes, items, new, z, ts, bound) == resolved_sigs(nodes, items, old, z, ts, bound),
    decreases bound, ts.len(),
{
    if ts.len() > 0 && ts.last().id < bound {
        lemma_resolved_sigs_extends(nodes, items, aid, new, old, z, ts.drop_last(), bound);
        lemma_resolved_sig_extends(nodes, items, aid, new, old, z, ts.last());
    }
}

/// Resolved types keep their meaning when the table grows.
pub proof fn lemma_resolved_sig_extends(
    nodes: Seq<Node>,
    items: Seq<SymbolValueItem>,
    aid: u32,
    new: Seq<TypeSignatureValue>,
    old: Seq<TypeSignatureValue>,
    z: SymbolTableZipper,
    t: TypeSignature,
)
    requires
        table_extends(new, old),
        nodes_wf(nodes, old.len() as int),
        zipper_ok(nodes, items, aid, z),
        t.id < old.len(),
    ensures
        resolved_sig(nodes, items, new, z, t) == resolved_sig(nodes, items, old, z, t),
    decreases t.id + 1, 0int,
{
    assert(new[t.id as int]@ == old[t.id as int]@);
    match old[t.id as int]@ {
        TypeValue::Unresolved(n) => {
            lemma_zipper_lookup_ok(nodes, items, aid, z, KeyView::Named(n));
            if let Some(s) = zipper_lookup(nodes, items, z, KeyView::Named(n)) {
                lemma_item_deep_extends(nodes, new, old, symbol_item(items, s));
            }
        },
        TypeValue::Tuple(ids) => {
            lemma_resolved_sigs_extends(nodes, items, aid, new, old, z, ids, t.id as int);
        },
        TypeValue::Function(args, ret) => {
            lemma_resolved_sigs_extends(nodes, items, aid, new, old, z, args, t.id as int);
            if ret.id < t.id {
                lemma_resolved_sig_extends(nodes, items, aid, new, old, z, ret);
            }
        },
        _ => {
            lemma_deep_extends(new, old, t);
        },
    }
}

pub proof fn lemma_resolved_sigs_prefix_none(
    nodes: Seq<Node>,
    items: Seq<SymbolValueItem>,
    types: Seq<TypeSignatureValue>,
    z: SymbolTableZipper,
    ts: Seq<TypeSignature>,
    bound: int,
    i: int,
)
    requires
        0 <= i <= ts.len(),
        resolved_sigs(nodes, items, types, z, ts.take(i), bound) is None,
    ensures
        resolved_sigs(nodes, items, types, z, ts, bound) is None,
    decreases ts.len() - i,
{
    if i == ts.len() {
        assert(ts.take(i) =~= ts);
    } else {
        assert(ts.drop_last().take(i) =~= ts.take(i));
        lemma_resolved_sigs_prefix_none(nodes, items, types, z, ts.drop_last(), bound, i);
    }
}

/// Resolves the references `ts`, all before `bound`.
#[verifier::loop_isolation(false)]
fn resolve_type_sigs(ctx: &mut IrCtx, z: &SymbolTableZipper, ts: &Vec<TypeSignature>, bound: usize) -> (r: Result<Vec<TypeSignature>, TypeEvalError>)
    requires
        old(ctx).wf(),
        bound <= old(ctx).types.types@.len(),
        forall|k: int| 0 <= k < ts@.len() ==> #[trigger] ts@[k].id < bound,
        zipper_ok(old(ctx).nodes@, arena_items(old(ctx).symbols), arena_ident(old(ctx).symbols), *z),
    ensures
        eval_post(final(ctx), old(ctx)),
        r matches Ok(rs) ==> sigs_in(rs@, final(ctx).types.types@.len() as int)
            && resolved_sigs(old(ctx).nodes@, arena_items(old(ctx).symbols), old(ctx).types.types@, *z, ts@, bound as int)
                == Some(deep_all(final(ctx).types.types@, rs@)),
        r matches Err(err) ==> resolved_sigs(old(ctx).nodes@, arena_items(old(ctx).symbols), old(ctx).types.types@, *z, ts@, bound as int) is None,
    decreases bound, ts@.len(),
{
    let ghost c0 = *ctx;
    let ghost nodes = ctx.nodes@;
    let ghost items = arena_items(ctx.symbols);
    let ghost aid = arena_ident(ctx.symbols);
    let mut rs: Vec<TypeSignature> = Vec::new();
    let mut i: usize = 0;
    assert(ts@.take(0) =~= Seq::<TypeSignature>::empty());
    assert(deep_all(ctx.types.types@, rs@) =~= Seq::<DeepType>::empty());
    while i < ts.len()
        invariant
            i <= ts@.len(),
            eval_post(ctx, &c0),
            sigs_in(rs@, ctx.types.types@.len() as int),
            resolved_sigs(nodes, items, c0.types.types@, *z, ts@.take(i as int), bound as int) == Some(deep_all(ctx.types.types@, rs@)),
        decreases ts@.len() - i,
    {
        let ghost c1 = *ctx;
        let x = ts[i];
        assert(ts@.take(i + 1).drop_last() =~= ts@.take(i as int));
        assert(ts@.take(i + 1).last() == x);
        match resolve_type_sig(ctx, z, x) {
            Ok(t) => {
                proof {
                    lemma_resolved_sig_extends(nodes, items, aid, c1.types.types@, c0.types.types@, *z, x);
                    assert forall|k: int| 0 <= k < rs@.len() implies #[trigger] deep(ctx.types.types@, rs@[k]) == deep(c1.types.types@, rs@[k]) by {
                        lemma_deep_extends(ctx.types.types@, c1.types.types@, rs@[k]);
                    }
                    assert(deep_all(ctx.types.types@, rs@) =~= deep_all(c1.types.types@, rs@));
                }
                rs.push(t);
                proof {
                    assert(deep_all(ctx.types.types@, rs@) =~= deep_all(c1.types.types@, rs@.drop_last()).push(deep(ctx.types.types@, t)));
                }
            },
            Err(err) => {
                proof {
                    lemma_eval_post_trans(ctx, &c1, &c0);
                    lemma_resolved_sig_extends(nodes, items, aid, c1.types.types@, c0.types.types@, *z, x);
                    lemma_resolved_sigs_prefix_none(nodes, items, c0.types.types@, *z, ts@, bound as int, i + 1);
                }
                return Err(err);
            },
        }
        i = i + 1;
    }
    assert(ts@.take(ts@.len() as int) =~= ts@);
    Ok(rs)
}

/// Resolves the type names in `t` at the zipper's position: a name becomes
/// the type of what it refers to; tuple and function types are rebuilt from
/// their resolved parts.
pub fn resolve_type_sig(ctx: &mut IrCtx, z: &SymbolTableZipper, t: TypeSignature) -> (r: Result<TypeSignature, TypeEvalError>)
    requires
        old(ctx).wf(),
        old(ctx).types.contains(t),
        zipper_ok(old(ctx).nodes@, arena_items(old(ctx).symbols), arena_ident(old(ctx).symbols), *z),
    ensures
        eval_post(final(ctx), old(ctx)),
        r matches Ok(u) ==> final(ctx).types.contains(u)
            && resolved_sig(old(ctx).nodes@, arena_items(old(ctx).symbols), old(ctx).types.types@, *z, t)
                == Some(deep(final(ctx).types.types@, u)),
        r matches Err(err) ==> resolved_sig(old(ctx).nodes@, arena_items(old(ctx).symbols), old(ctx).types.types@, *z, t) is None,
    decreases t.id + 1, 0int,
{
    let ghost c0 = *ctx;
    let ghost nodes = ctx.nodes@;
    let ghost items = arena_items(ctx.symbols);
    let ghost aid = arena_ident(ctx.symbols);
    proof { lemma_deep_value(ctx.types.types@, t); }
    match ctx.types.get(t) {
        TypeSignatureValue::Unresolved(name) => {
            let key = IdentKey::Named(crate::ir::text::copy_chars(name));
            let sym = match z.lookup(ctx, &key) {
                Some(s) => s,
                None => {
                    let n = crate::ir::text::copy_chars(name);
                    return Err(TypeEvalError::UnknownIdent(Ident { name: n, span: Span { start: 0, end: 0, line: 0, offset: 0 } }));
                },
            };
            let item = match get_symbol(&ctx.symbols, sym.id) {
                Some(it) => it,
                None => { return unreached(); },
            };
            Ok(item_type(ctx, item))
        },
        TypeSignatureValue::Tuple(ids) => {
            let ids = crate::ir::types::copy_type_sigs(ids);
            proof {
                assert forall|k: int| 0 <= k < ids@.len() implies #[trigger] ids@[k].id < t.id by {
                    assert(type_children(ctx.types.value(t))[k] == ids@[k]);
                }
            }
            let rs = resolve_type_sigs(ctx, z, &ids, t.id)?;
            let ghost c1 = *ctx;
            let ghost rsv = rs@;
            let u = ctx.intern(TypeSignatureValue::Tuple(rs));
            proof {
                lemma_deep_value(ctx.types.types@, u);
                assert forall|k: int| 0 <= k < rsv.len() implies #[trigger] deep(ctx.types.types@, rsv[k]) == deep(c1.types.types@, rsv[k]) by {
                    lemma_deep_extends(ctx.types.types@, c1.types.types@, rsv[k]);
                }
                assert(deep_all(ctx.types.types@, rsv) =~= deep_all(c1.types.types@, rsv));
            }
            Ok(u)
        },
        TypeSignatureValue::Function { args, return_type } => {
            let args = crate::ir::types::copy_type_sigs(args);
            let ret = *return_type;
            proof {
                assert forall|k: int| 0 <= k < args@.len() implies #[trigger] args@[k].id < t.id by {
                    assert(type_children(ctx.types.value(t))[k] == args@[k]);
                }
                assert(type_children(ctx.types.value(t))[args@.len() as int] == ret);
            }
            let rs = resolve_type_sigs(ctx, z, &args, t.id)?;
            let ghost c1 = *ctx;
            proof {
                lemma_resolved_sig_extends(nodes, items, aid, c1.types.types@, c0.types.types@, *z, ret);
            }
            let rr = match resolve_type_sig(ctx, z, ret) {
                Ok(x) => x,
                Err(err) => {
                    proof { lemma_eval_post_trans(ctx, &c1, &c0); }
                    return Err(err);
                },
            };
            proof { lemma_eval_post_trans(ctx, &c1, &c0); }
            let ghost c2 = *ctx;
            let ghost rsv = rs@;
            assert(sigs_in(type_children(TypeValue::Function(rsv, rr)), ctx.types.types@.len() as int)) by {
                assert forall|k: int| 0 <= k < type_children(TypeValue::Function(rsv, rr)).len()
                    implies (#[trigger] type_children(TypeValue::Function(rsv, rr))[k]).id < ctx.types.types@.len() by {
                    if k < rsv.len() {
                        assert(type_children(TypeValue::Function(rsv, rr))[k] == rsv[k]);
                    }
                }
            }
            let u = ctx.intern(TypeSignatureValue::Function { args: rs, return_type: rr });
            proof {
                lemma_eval_post_trans(ctx, &c2, &c0);
                lemma_deep_value(ctx.types.types@, u);
                assert forall|k: int| 0 <= k < rsv.len() implies #[trigger] deep(ctx.types.types@, rsv[k]) == deep(c1.types.types@, rsv[k]) by {
                    lemma_deep_extends(ctx.types.types@, c1.types.types@, rsv[k]);
                }
                assert(deep_all(ctx.types.types@, rsv) =~= deep_all(c1.types.types@, rsv));
                lemma_deep_extends(ctx.types.types@, c2.types.types@, rr);
            }
            Ok(u)
        },
        _ => {
            proof {
                lemma_deep_extends(ctx.types.types@, c0.types.types@, t);
            }
            Ok(t)
        },
    }
}

/// The position of the first value of an enum named `n`, or -1.
pub open spec fn value_pos(values: Seq<EnumValue>, n: Seq<char>) -> int
    decreases values.len(),
{
    if values.len() == 0 {
        -1
    } else if values[0].name.name@ == n {
        0
    } else {
        let p = value_pos(values.drop_first(), n);
        if p < 0 {
            -1
        } else {
            p + 1
        }
    }
}

pub proof fn lemma_value_pos_at(values: Seq<EnumValue>, n: Seq<char>, i: int)
    requires
        0 <= i < values.len(),
        values[i].name.name@ == n,
        forall|j: int| 0 <= j < i ==> (#[trigger] values[j]).name.name@ != n,
    ensures
        value_pos(values, n) == i,
    decreases i,
{
    if i > 0 {
        assert forall|j: int| 0 <= j < i - 1 implies (#[trigger] values.drop_first()[j]).name.name@ != n by {
            assert(values.drop_first()[j] == values[j + 1]);
        }
        lemma_value_pos_at(values.drop_first(), n, i - 1);
    }
}

pub proof fn lemma_value_pos_none(values: Seq<EnumValue>, n: Seq<char>)
    requires
        forall|j: int| 0 <= j < values.len() ==> (#[trigger] values[j]).name.name@ != n,
    ensures
        value_pos(values, n) == -1,
    decreases values.len(),
{
    if values.len() > 0 {
        assert forall|j: int| 0 <= j < values.len() - 1 implies (#[trigger] values.drop_first()[j]).name.name@ != n by {
            assert(values.drop_first()[j] == values[j + 1]);
        }
        lemma_value_pos_none(values.drop_first(), n);
    }
}

/// The enum declaration that the name `n` refers to at the zipper's position.
pub open spec fn enum_decl_of(nodes: Seq<Node>, items: Seq<SymbolValueItem>, z: SymbolTableZipper, n: Seq<char>) -> Option<NodeRef> {
    match zipper_lookup(nodes, items, z, KeyView::Named(n)) {
        Some(s) => match symbol_item(items, s) {
            SymbolValueItem::EnumDecl(d) => Some(d),
            _ => None,
        },
        None => None,
    }
}

/// The struct declaration that the name `n` refers to.
pub fn lookup_struct(ctx: &IrCtx, z: &SymbolTableZipper, n: &Vec<char>) -> (r: Option<NodeRef>)
    requires
        ctx.wf(),
        zipper_ok(ctx.nodes@, arena_items(ctx.symbols), arena_ident(ctx.symbols), *z),
    ensures
        r == struct_decl_of(ctx.nodes@, arena_items(ctx.symbols), *z, n@),
        r matches Some(d) ==> is_struct(ctx.nodes@, d as int),
{
    let key = IdentKey::Named(copy_chars(n));
    match z.lookup(ctx, &key) {
        Some(s) => match get_symbol(&ctx.symbols, s.id) {
            Some(SymbolValueItem::StructDecl(d)) => Some(d),
            Some(_) => None,
            None => unreached(),
        },
        None => None,
    }
}

/// The enum declaration that the name `n` refers to.
pub fn lookup_enum(ctx: &IrCtx, z: &SymbolTableZipper, n: &Vec<char>) -> (r: Option<NodeRef>)
    requires
        ctx.wf(),
        zipper_ok(ctx.nodes@, arena_items(ctx.symbols), arena_ident(ctx.symbols), *z),
    ensures
        r == enum_decl_of(ctx.nodes@, arena_items(ctx.symbols), *z, n@),
        r matches Some(d) ==> is_enum(ctx.nodes@, d as int),
{
    let key = IdentKey::Named(copy_chars(n));
    match z.lookup(ctx, &key) {
        Some(s) => match get_symbol(&ctx.symbols, s.id) {
            Some(SymbolValueItem::EnumDecl(d)) => Some(d),
            Some(_) => None,
            None => unreached(),
        },
        None => None,
    }
}

/// The position of the attribute named `n` of the struct at node `d`.
#[verifier::loop_isolation(false)]
pub fn find_attr(ctx: &IrCtx, d: NodeRef, n: &Vec<char>) -> (r: Option<usize>)
    requires
        is_struct(ctx.nodes@, d as int),
    ensures
        r is None <==> attr_pos(ctx.nodes@[d as int]->Struct_0.attrs@, n@) < 0,
        r matches Some(k) ==> k == attr_pos(ctx.nodes@[d as int]->Struct_0.attrs@, n@),
        r matches Some(k) ==> k < ctx.nodes@[d as int]->Struct_0.attrs@.len(),
{
    let attrs = match &ctx.nodes[d] {
        Node::Struct(st) => &st.attrs,
        _ => { return unreached(); },
    };
    let mut i: usize = 0;
    while i < attrs.len()
        invariant
            i <= attrs@.len(),
            forall|j: int| 0 <= j < i ==> (#[trigger] attrs@[j]).name.name@ != n@,
        decreases attrs@.len() - i,
    {
        if chars_eq(&attrs[i].name.name, n) {
            proof { lemma_attr_pos_at(attrs@, n@, i as int); }
            return Some(i);
        }
        i = i + 1;
    }
    proof { lemma_attr_pos_none(attrs@, n@); }
    None
}

/// The position of the value named `n` of the enum at node `d`.
#[verifier::loop_isolation(false)]
pub fn find_value(ctx: &IrCtx, d: NodeRef, n: &Vec<char>) -> (r: Option<usize>)
    requires
        is_enum(ctx.nodes@, d as int),
    ensures
        r is None <==> value_pos(ctx.nodes@[d as int]->Enum_0.values@, n@) < 0,
        r matches Some(k) ==> k == value_pos(ctx.nodes@[d as int]->Enum_0.values@, n@),
        r matches Some(k) ==> k < ctx.nodes@[d as int]->Enum_0.values@.len(),
{
    let values = match &ctx.nodes[d] {
        Node::Enum(en) => &en.values,
        _ => { return unreached(); },
    };
    let mut i: usize = 0;
    while i < values.len()
        invariant
            i <= values@.len(),
            forall|j: int| 0 <= j < i ==> (#[trigger] values@[j]).name.name@ != n@,
        decreases values@.len() - i,
    {
        if chars_eq(&values[i].name.name, n) {
            proof { lemma_value_pos_at(values@, n@, i as int); }
            return Some(i);
        }
        i = i + 1;
    }
    proof { lemma_value_pos_none(values@, n@); }
    None
}

/// The first position of `defining` whose variable is named `n`, or -1.
pub open spec fn first_named(nodes: Seq<Node>, defining: Seq<NodeRef>, n: Seq<char>) -> int
    decreases defining.len(),
{
    if defining.len() == 0 {
        -1
    } else if nodes[defining[0] as int]->VarDecl_0.name.name@ == n {
        0
    } else {
        let k = first_named(nodes, defining.drop_first(), n);
        if k < 0 { -1 } else { k + 1 }
    }
}

/// What resolving the name `id` used as a value gives: an error naming the
/// first variable of `defining` (those whose values are being defined, the
/// outermost first) that has this name; otherwise an error when it refers to
/// nothing visible; success otherwise.
pub open spec fn ident_outcome(ctx: &IrCtx, z: SymbolTableZipper, defining: Seq<NodeRef>, id: Ident, r: Result<(), SymbolResolutionError>) -> bool {
    let found = zipper_lookup(ctx.nodes@, arena_items(ctx.symbols), z, KeyView::Named(id.name@));
    let k = first_named(ctx.nodes@, defining, id.name@);
    if k >= 0 {
        r == Err::<(), SymbolResolutionError>(SymbolResolutionError::RecursiveDeclaration { var_decl: defining[k], ident_span: id.span })
    } else {
        &&& (found is None <==> r is Err)
        &&& (r matches Err(e) ==> e matches SymbolResolutionError::TypeEval(TypeEvalError::UnknownIdent(n)) && n.name@ == id.name@)
    }
}

proof fn lemma_first_named_step(nodes: Seq<Node>, defining: Seq<NodeRef>, n: Seq<char>, i: int)
    requires
        0 <= i < defining.len(),
        forall|j: int| 0 <= j < i ==> nodes[(#[trigger] defining[j]) as int]->VarDecl_0.name.name@ != n,
    ensures
        nodes[defining[i] as int]->VarDecl_0.name.name@ == n ==> first_named(nodes, defining, n) == i,
    decreases i,
{
    if i > 0 {
        assert forall|j: int| 0 <= j < i - 1 implies nodes[(#[trigger] defining.drop_first()[j]) as int]->VarDecl_0.name.name@ != n by {
            assert(defining.drop_first()[j] == defining[j + 1]);
        }
        lemma_first_named_step(nodes, defining.drop_first(), n, i - 1);
    }
}

proof fn lemma_first_named_none(nodes: Seq<Node>, defining: Seq<NodeRef>, n: Seq<char>)
    requires
        forall|j: int| 0 <= j < defining.len() ==> nodes[(#[trigger] defining[j]) as int]->VarDecl_0.name.name@ != n,
    ensures
        first_named(nodes, defining, n) == -1,
    decreases defining.len(),
{
    if defining.len() > 0 {
        assert forall|j: int| 0 <= j < defining.len() - 1 implies nodes[(#[trigger] defining.drop_first()[j]) as int]->VarDecl_0.name.name@ != n by {
            assert(defining.drop_first()[j] == defining[j + 1]);
        }
        lemma_first_named_none(nodes, defining.drop_first(), n);
    }
}

/// Resolves a name used as a value to the symbol it refers to: it must not
/// be the name of a variable whose value is being defined, and it must refer
/// to a visible symbol.
#[verifier::loop_isolation(false)]
pub fn resolve_ident(ctx: &IrCtx, z: &SymbolTableZipper, defining: &Vec<NodeRef>, id: &Ident) -> (r: Result<SymbolValue, SymbolResolutionError>)
    requires
        ctx.wf(),
        zipper_ok(ctx.nodes@, arena_items(ctx.symbols), arena_ident(ctx.symbols), *z),
        forall|i: int| 0 <= i < defining@.len() ==> is_var(ctx.nodes@, #[trigger] defining@[i] as int),
    ensures
        ident_outcome(ctx, *z, defining@, *id, match r {
            Ok(_) => Ok::<(), SymbolResolutionError>(()),
            Err(e) => Err(e),
        }),
        r matches Ok(s) ==> zipper_lookup(ctx.nodes@, arena_items(ctx.symbols), *z, KeyView::Named(id.name@)) == Some(s),
{
    let mut i: usize = 0;
    while i < defining.len()
        invariant
            i <= defining@.len(),
            forall|j: int| 0 <= j < i ==> ctx.nodes@[(#[trigger] defining@[j]) as int]->VarDecl_0.name.name@ != id.name@,
        decreases defining@.len() - i,
    {
        let w = defining[i];
        proof { assert(node_ok(ctx.nodes@, w as int, ctx.types.types@.len() as int)); }
        let same = match &ctx.nodes[w] {
            Node::VarDecl(d) => chars_eq(&d.name.name, &id.name),
            _ => { return unreached(); },
        };
        if same {
            proof { lemma_first_named_step(ctx.nodes@, defining@, id.name@, i as int); }
            return Err(SymbolResolutionError::RecursiveDeclaration { var_decl: w, ident_span: id.span });
        }
        i = i + 1;
    }
    proof { lemma_first_named_none(ctx.nodes@, defining@, id.name@); }
    let key = id.key();
    match z.lookup(ctx, &key) {
        Some(s) => Ok(s),
        None => Err(SymbolResolutionError::TypeEval(TypeEvalError::UnknownIdent(id.copy()))),
    }
}

/// What checking the names of the struct initialization at node `e` gives:
/// success exactly when its name refers to a struct that has every
/// attribute that it initializes, an unknown name otherwise.
pub open spec fn struct_init_outcome(ctx: &IrCtx, z: SymbolTableZipper, e: NodeRef, r: Result<(), SymbolResolutionError>) -> bool {
    let x = ctx.nodes@[e as int]->Expr_0;
    let d = struct_decl_of(ctx.nodes@, arena_items(ctx.symbols), z, x->StructInit_struct_name.name@);
    &&& (r is Ok <==> (d matches Some(dd) && forall|k: int| 0 <= k < x->StructInit_values@.len()
        ==> attr_pos(ctx.nodes@[dd as int]->Struct_0.attrs@, (#[trigger] x->StructInit_values@[k]).name.name@) >= 0))
    &&& (r is Err ==> r matches Err(SymbolResolutionError::TypeEval(TypeEvalError::UnknownIdent(_))))
}

/// Checks the names of a struct initialization: the struct name must refer
/// to a struct, and every initialized name must be one of its attributes.
#[verifier::loop_isolation(false)]
pub fn resolve_struct_init(ctx: &IrCtx, z: &SymbolTableZipper, e: NodeRef) -> (r: Result<(), SymbolResolutionError>)
    requires
        ctx.wf(),
        zipper_ok(ctx.nodes@, arena_items(ctx.symbols), arena_ident(ctx.symbols), *z),
        is_expr(ctx.nodes@, e as int),
        ctx.nodes@[e as int]->Expr_0 is StructInit,
    ensures
        struct_init_outcome(ctx, *z, e, r),
{
    let (name, n) = match &ctx.nodes[e] {
        Node::Expr(Expr::StructInit { struct_name, values }, _) => (struct_name.copy(), values.len()),
        _ => { return unreached(); },
    };
    let d = match lookup_struct(ctx, z, &name.name) {
        Some(d) => d,
        None => { return Err(SymbolResolutionError::TypeEval(TypeEvalError::UnknownIdent(name))); },
    };
    let mut k: usize = 0;
    while k < n
        invariant
            k <= n,
            is_expr(ctx.nodes@, e as int),
            ctx.nodes@[e as int]->Expr_0 is StructInit,
            n == ctx.nodes@[e as int]->Expr_0->StructInit_values@.len(),
            is_struct(ctx.nodes@, d as int),
            forall|j: int| 0 <= j < k ==> attr_pos(ctx.nodes@[d as int]->Struct_0.attrs@,
                (#[trigger] ctx.nodes@[e as int]->Expr_0->StructInit_values@[j]).name.name@) >= 0,
        decreases n - k,
    {
        let vname = match &ctx.nodes[e] {
            Node::Expr(Expr::StructInit { values, .. }, _) => values[k].name.copy(),
            _ => { return unreached(); },
        };
        if find_attr(ctx, d, &vname.name).is_none() {
            return Err(SymbolResolutionError::TypeEval(TypeEvalError::UnknownIdent(vname)));
        }
        k = k + 1;
    }
    Ok(())
}

/// What checking the names of the enum initialization at node `e` gives:
/// an unknown name where its enum name refers to no enum, an unknown value
/// where the enum has no such value, success otherwise.
pub open spec fn enum_init_outcome(ctx: &IrCtx, z: SymbolTableZipper, e: NodeRef, r: Result<(), SymbolResolutionError>) -> bool {
    let x = ctx.nodes@[e as int]->Expr_0;
    let d = enum_decl_of(ctx.nodes@, arena_items(ctx.symbols), z, x->EnumInit_enum_name@);
    &&& (d is None <==> r matches Err(SymbolResolutionError::TypeEval(TypeEvalError::UnknownIdent(_))))
    &&& ((d matches Some(dd) && value_pos(ctx.nodes@[dd as int]->Enum_0.values@, x->EnumInit_enum_value.name@) < 0) <==> r matches Err(SymbolResolutionError::UnknownEnumValue { .. }))
    &&& (r matches Err(SymbolResolutionError::UnknownEnumValue { enm, enum_value }) ==> d == Some(enm) && enum_value.name@ == x->EnumInit_enum_value.name@)
    &&& (r is Err ==> r matches Err(SymbolResolutionError::TypeEval(TypeEvalError::UnknownIdent(_))) || r matches Err(SymbolResolutionError::UnknownEnumValue { .. }))
}

/// Checks the names of an enum initialization: the enum name must refer to
/// an enum that has the named value.
pub fn resolve_enum_init(ctx: &IrCtx, z: &SymbolTableZipper, e: NodeRef) -> (r: Result<(), SymbolResolutionError>)
    requires
        ctx.wf(),
        zipper_ok(ctx.nodes@, arena_items(ctx.symbols), arena_ident(ctx.symbols), *z),
        is_expr(ctx.nodes@, e as int),
        ctx.nodes@[e as int]->Expr_0 is EnumInit,
    ensures
        enum_init_outcome(ctx, *z, e, r),
{
    let (name, value, span) = match &ctx.nodes[e] {
        Node::Expr(Expr::EnumInit { enum_name, enum_value, .. }, span) => (copy_chars(enum_name), enum_value.copy(), *span),
        _ => { return unreached(); },
    };
    let d = match lookup_enum(ctx, z, &name) {
        Some(d) => d,
        None => { return Err(SymbolResolutionError::TypeEval(TypeEvalError::UnknownIdent(Ident { name, span }))); },
    };
    match find_value(ctx, d, &value.name) {
        Some(_) => Ok(()),
        None => Err(SymbolResolutionError::UnknownEnumValue { enm: d, enum_value: value }),
    }
}

/// What resolving leaves of a context: a well formed program whose nodes
/// keep their kinds, a table that only grows, the same symbols.
pub open spec fn resolve_post(new: &IrCtx, old: &IrCtx) -> bool {
    &&& new.wf()
    &&& nodes_compat(new.nodes@, old.nodes@)
    &&& TypeTable::extends(new.types, old.types)
    &&& arena_items(new.symbols) == arena_items(old.symbols)
    &&& arena_ident(new.symbols) == arena_ident(old.symbols)
}

pub proof fn lemma_resolve_post_trans(c: &IrCtx, b: &IrCtx, a: &IrCtx)
    requires
        resolve_post(c, b),
        resolve_post(b, a),
    ensures
        resolve_post(c, a),
{
    lemma_nodes_compat_trans(c.nodes@, b.nodes@, a.nodes@);
    assert forall|i: int| 0 <= i < a.types.types@.len() implies #[trigger] c.types.types@[i]@ == a.types.types@[i]@ by {
        assert(c.types.types@[i]@ == b.types.types@[i]@);
    }
}

pub proof fn lemma_eval_post_resolve_post(c: &IrCtx, a: &IrCtx)
    requires
        eval_post(c, a),
    ensures
        resolve_post(c, a),
{
    lemma_nodes_compat_refl(a.nodes@);
}

/// What resolving the member access at node `e`, on the object `o`, gives:
/// an attribute read or call on a struct, an enum value on an enum, an error
/// naming the object's type (in the table `types_new` as it ends) on
/// anything else.
pub open spec fn member_access_outcome(
    nodes: Seq<Node>,
    items: Seq<SymbolValueItem>,
    types: Seq<TypeSignatureValue>,
    z: SymbolTableZipper,
    e: NodeRef,
    o: NodeRef,
    nx: Expr,
    r: Result<(), SymbolResolutionError>,
    types_new: Seq<TypeSignatureValue>,
) -> bool {
    let x = nodes[e as int]->Expr_0;
    let member = x->UnresolvedMemberAccess_member_name;
    let its = x->UnresolvedMemberAccess_items;
    let d = expr_deep(nodes, items, types, z, o);
    match d {
        None => r matches Err(SymbolResolutionError::TypeEval(_)),
        Some(DeepType::Struct(_)) => r is Ok && match its {
            None => nx matches Expr::StructAccess { struct_expr, attr_name } && struct_expr == o
                && attr_name.name@ == member.name@ && attr_name.span == member.span,
            Some(ps) => nx matches Expr::MethodCall { struct_expr, attr_name, params } && struct_expr == o
                && attr_name.name@ == member.name@ && attr_name.span == member.span && params@ == ps@,
        },
        Some(DeepType::Enum(n)) => r is Ok && (nx matches Expr::EnumInit { enum_name, enum_value, items: vs }
            && enum_name@ == n && enum_value.name@ == member.name@ && enum_value.span == member.span
            && vs@ == (match its {
                Some(ps) => ps@,
                None => Seq::<NodeRef>::empty(),
            })),
        Some(t) => r matches Err(SymbolResolutionError::InvalidMemberAccessType { mem_acc, obj_type }) && mem_acc == e
            && deep(types_new, obj_type) == t,
    }
}

/// Turns a member access on a value into what its type makes it: an
/// attribute read (or a call of an attribute, when it has arguments) on a
/// struct, an enum value on an enum. A member access without an object is
/// left as it is.
pub fn resolve_member_access(ctx: &mut IrCtx, z: &SymbolTableZipper, e: NodeRef) -> (r: Result<(), SymbolResolutionError>)
    requires
        old(ctx).wf(),
        zipper_ok(old(ctx).nodes@, arena_items(old(ctx).symbols), arena_ident(old(ctx).symbols), *z),
        is_expr(old(ctx).nodes@, e as int),
        old(ctx).nodes@[e as int]->Expr_0 is UnresolvedMemberAccess,
    ensures
        resolve_post(final(ctx), old(ctx)),
        forall|i: int| 0 <= i < old(ctx).nodes@.len() && i != e ==> final(ctx).nodes@[i] == old(ctx).nodes@[i],
        old(ctx).nodes@[e as int]->Expr_0->UnresolvedMemberAccess_object is None ==> r is Ok && final(ctx).nodes@ == old(ctx).nodes@,
        final(ctx).nodes@[e as int] is Expr && final(ctx).nodes@[e as int]->Expr_1 == old(ctx).nodes@[e as int]->Expr_1,
        r is Err ==> final(ctx).nodes@[e as int] == old(ctx).nodes@[e as int],
        old(ctx).nodes@[e as int]->Expr_0->UnresolvedMemberAccess_object matches Some(o) ==> member_access_outcome(
            old(ctx).nodes@,
            arena_items(old(ctx).symbols),
            old(ctx).types.types@,
            *z,
            e,
            o,
            final(ctx).nodes@[e as int]->Expr_0,
            r,
            final(ctx).types.types@,
        ),
{
    let ghost c0 = *ctx;
    proof {
        assert(node_ok(ctx.nodes@, e as int, ctx.types.types@.len() as int));
        lemma_nodes_compat_refl(ctx.nodes@);
    }
    let (obj, member, its) = match &ctx.nodes[e] {
        Node::Expr(Expr::UnresolvedMemberAccess { object, member_name, items, .. }, _) => (
            *object,
            member_name.copy(),
            match items {
                Some(v) => Some(copy_refs(v)),
                None => None,
            },
        ),
        _ => { return unreached(); },
    };
    let o = match obj {
        Some(o) => o,
        None => { return Ok(()); },
    };
    let t = match eval_type(ctx, z, o) {
        Ok(t) => t,
        Err(err) => {
            proof {
                lemma_eval_post_resolve_post(ctx, &c0);
                let d = expr_deep(c0.nodes@, arena_items(c0.symbols), c0.types.types@, *z, o);
                assert(d is None);
                assert(!(d matches Some(DeepType::Struct(_))));
                assert(!(d matches Some(DeepType::Enum(_))));
            }
            return Err(SymbolResolutionError::TypeEval(err));
        },
    };
    proof { lemma_eval_post_resolve_post(ctx, &c0); }
    let ghost c1 = *ctx;
    let nx = match ctx.types.get(t) {
        TypeSignatureValue::Struct { .. } => match its {
            Some(ps) => Expr::MethodCall { struct_expr: o, attr_name: member, params: ps },
            None => Expr::StructAccess { struct_expr: o, attr_name: member },
        },
        TypeSignatureValue::Enum { name } => Expr::EnumInit {
            enum_name: copy_chars(name),
            enum_value: member,
            items: match its {
                Some(ps) => ps,
                None => Vec::new(),
            },
        },
        _ => {
            proof {
                assert(!(deep(ctx.types.types@, t) is Struct));
                assert(!(deep(ctx.types.types@, t) is Enum));
            }
            return Err(SymbolResolutionError::InvalidMemberAccessType { mem_acc: e, obj_type: t });
        },
    };
    proof {
        assert(node_ok(ctx.nodes@, e as int, ctx.types.types@.len() as int));
    }
    ctx.replace_expr(e, nx);
    proof {
        assert(node_compat(ctx.nodes@[e as int], c1.nodes@[e as int]));
        assert forall|i: int| 0 <= i < c1.nodes@.len() implies #[trigger] node_compat(ctx.nodes@[i], c1.nodes@[i]) by {
            if i != e {
                crate::ir::node::reveal_same_kind(c1.nodes@[i]);
            }
        }
        lemma_resolve_post_trans(ctx, &c1, &c0);
    }
    Ok(())
}

/// Resolves the type references `ts` one after the other, without touching
/// the nodes.
#[verifier::loop_isolation(false)]
fn resolve_each(ctx: &mut IrCtx, z: &SymbolTableZipper, ts: &Vec<TypeSignature>) -> (r: Result<Vec<TypeSignature>, TypeEvalError>)
    requires
        old(ctx).wf(),
        sigs_in(ts@, old(ctx).types.types@.len() as int),
        zipper_ok(old(ctx).nodes@, arena_items(old(ctx).symbols), arena_ident(old(ctx).symbols), *z),
    ensures
        eval_post(final(ctx), old(ctx)),
        r matches Ok(rs) ==> rs@.len() == ts@.len() && sigs_in(rs@, final(ctx).types.types@.len() as int)
            && forall|k: int| 0 <= k < ts@.len() ==> resolved_sig(old(ctx).nodes@, arena_items(old(ctx).symbols),
                old(ctx).types.types@, *z, #[trigger] ts@[k]) == Some(deep(final(ctx).types.types@, rs@[k])),
        r matches Err(err) ==> exists|k: int| 0 <= k < ts@.len() && resolved_sig(old(ctx).nodes@,
            arena_items(old(ctx).symbols), old(ctx).types.types@, *z, #[trigger] ts@[k]) is None,
{
    let ghost c0 = *ctx;
    let ghost nodes = ctx.nodes@;
    let ghost items = arena_items(ctx.symbols);
    let ghost aid = arena_ident(ctx.symbols);
    let mut rs: Vec<TypeSignature> = Vec::new();
    let mut i: usize = 0;
    while i < ts.len()
        invariant
            i <= ts@.len(),
            eval_post(ctx, &c0),
            rs@.len() == i,
            sigs_in(rs@, ctx.types.types@.len() as int),
            forall|k: int| 0 <= k < i ==> resolved_sig(nodes, items, c0.types.types@, *z, #[trigger] ts@[k])
                == Some(deep(ctx.types.types@, rs@[k])),
        decreases ts@.len() - i,
    {
        let ghost c1 = *ctx;
        proof {
            lemma_resolved_sig_extends(nodes, items, aid, c1.types.types@, c0.types.types@, *z, ts@[i as int]);
        }
        match resolve_type_sig(ctx, z, ts[i]) {
            Ok(t) => {
                proof {
                    assert forall|k: int| 0 <= k < i implies resolved_sig(nodes, items, c0.types.types@, *z, #[trigger] ts@[k])
                        == Some(deep(ctx.types.types@, rs@[k])) by {
                        lemma_deep_extends(ctx.types.types@, c1.types.types@, rs@[k]);
                    }
                }
                rs.push(t);
            },
            Err(err) => {
                proof { lemma_eval_post_trans(ctx, &c1, &c0); }
                return Err(err);
            },
        }
        i = i + 1;
    }
    Ok(rs)
}

/// What resolving the declared type of the variable at node `v` does.
pub open spec fn resolve_var_type_post(ctx_new: &IrCtx, ctx_old: &IrCtx, z: SymbolTableZipper, v: NodeRef, r: Result<(), SymbolResolutionError>) -> bool {
    &&& (resolve_post(ctx_new, ctx_old))
    &&& (forall|i: int| 0 <= i < ctx_old.nodes@.len() && i != v ==> ctx_new.nodes@[i] == ctx_old.nodes@[i])
    &&& (r is Ok ==> {
            let nv = ctx_new.nodes@[v as int]->VarDecl_0;
            &&& ctx_new.nodes@[v as int] == Node::VarDecl(crate::ir::node::VarDecl { type_sig: nv.type_sig, ..ctx_old.nodes@[v as int]->VarDecl_0 })
            &&& resolved_sig(ctx_old.nodes@, arena_items(ctx_old.symbols), ctx_old.types.types@, z,
                ctx_old.nodes@[v as int]->VarDecl_0.type_sig) == Some(deep(ctx_new.types.types@, nv.type_sig))
        })
    &&& (r matches Err(e) ==> e matches SymbolResolutionError::TypeEval(err) && (resolved_sig(
            ctx_old.nodes@, arena_items(ctx_old.symbols), ctx_old.types.types@, z, ctx_old.nodes@[v as int]->VarDecl_0.type_sig) is None))
}

/// Resolves the type names in the declared type of the variable at node `v`.
pub fn resolve_var_type(ctx: &mut IrCtx, z: &SymbolTableZipper, v: NodeRef) -> (r: Result<(), SymbolResolutionError>)
    requires
        old(ctx).wf(),
        zipper_ok(old(ctx).nodes@, arena_items(old(ctx).symbols), arena_ident(old(ctx).symbols), *z),
        is_var(old(ctx).nodes@, v as int),
    ensures
        resolve_var_type_post(final(ctx), old(ctx), *z, v, r),
{
    let ghost c0 = *ctx;
    proof {
        assert(node_ok(ctx.nodes@, v as int, ctx.types.types@.len() as int));
        lemma_nodes_compat_refl(ctx.nodes@);
    }
    let t = match &ctx.nodes[v] {
        Node::VarDecl(d) => d.type_sig,
        _ => { return unreached(); },
    };
    let u = match resolve_type_sig(ctx, z, t) {
        Ok(u) => u,
        Err(err) => {
            proof { lemma_eval_post_resolve_post(ctx, &c0); }
            return Err(SymbolResolutionError::TypeEval(err));
        },
    };
    proof { lemma_eval_post_resolve_post(ctx, &c0); }
    let ghost c1 = *ctx;
    ctx.set_var_type(v, u);
    proof {
        assert forall|i: int| 0 <= i < c1.nodes@.len() implies #[trigger] node_compat(ctx.nodes@[i], c1.nodes@[i]) by {
            crate::ir::node::reveal_same_kind(c1.nodes@[i]);
        }
        lemma_resolve_post_trans(ctx, &c1, &c0);
    }
    Ok(())
}

/// What settling the type of the variable at node `v` does.
pub open spec fn settle_var_type_post(ctx_new: &IrCtx, ctx_old: &IrCtx, z: SymbolTableZipper, v: NodeRef) -> bool {
    &&& (resolve_post(ctx_new, ctx_old))
    &&& (forall|i: int| 0 <= i < ctx_old.nodes@.len() && i != v ==> ctx_new.nodes@[i] == ctx_old.nodes@[i])
    &&& (({
            let ov = ctx_old.nodes@[v as int]->VarDecl_0;
            let nv = ctx_new.nodes@[v as int]->VarDecl_0;
            let vt = expr_deep(ctx_old.nodes@, arena_items(ctx_old.symbols), ctx_old.types.types@, z, ov.value);
            &&& ctx_new.nodes@[v as int] == Node::VarDecl(crate::ir::node::VarDecl { type_sig: nv.type_sig, ..ov })
            &&& nv.type_sig == ov.type_sig || (ctx_old.types.value(ov.type_sig) is TypeVariable
                && expr_deep(ctx_old.nodes@, arena_items(ctx_old.symbols), ctx_old.types.types@, z, ov.value)
                    == Some(deep(ctx_new.types.types@, nv.type_sig)))
            &&& !(ctx_old.types.value(ov.type_sig) is TypeVariable) ==> *ctx_new == *ctx_old
            &&& (ctx_old.types.value(ov.type_sig) is TypeVariable && vt is None) ==> nv.type_sig == ov.type_sig
            &&& (ctx_old.types.value(ov.type_sig) is TypeVariable && vt is Some) ==> (vt == Some(deep(ctx_new.types.types@, nv.type_sig))
                || (nv.type_sig == ov.type_sig && ctx_new.types.types@.len() >= usize::MAX - 1))
        }))
}

/// Gives a variable declared without a type the type of its value, when
/// that type can be worked out at the declaration.
pub fn settle_var_type(ctx: &mut IrCtx, z: &SymbolTableZipper, v: NodeRef)
    requires
        old(ctx).wf(),
        zipper_ok(old(ctx).nodes@, arena_items(old(ctx).symbols), arena_ident(old(ctx).symbols), *z),
        is_var(old(ctx).nodes@, v as int),
    ensures
        settle_var_type_post(final(ctx), old(ctx), *z, v),
{
    let ghost c0 = *ctx;
    proof {
        assert(node_ok(ctx.nodes@, v as int, ctx.types.types@.len() as int));
        lemma_nodes_compat_refl(ctx.nodes@);
    }
    let (t, value) = match &ctx.nodes[v] {
        Node::VarDecl(d) => (d.type_sig, d.value),
        _ => { return unreached(); },
    };
    let is_var_type = match ctx.types.get(t) {
        TypeSignatureValue::TypeVariable(_) => true,
        _ => false,
    };
    if !is_var_type {
        return;
    }
    match eval_type(ctx, z, value) {
        Ok(u) => {
            proof { lemma_eval_post_resolve_post(ctx, &c0); }
            let ghost c1 = *ctx;
            ctx.set_var_type(v, u);
            proof {
                assert forall|i: int| 0 <= i < c1.nodes@.len() implies #[trigger] node_compat(ctx.nodes@[i], c1.nodes@[i]) by {
                    crate::ir::node::reveal_same_kind(c1.nodes@[i]);
                }
                lemma_resolve_post_trans(ctx, &c1, &c0);
            }
        },
        Err(_) => {
            proof { lemma_eval_post_resolve_post(ctx, &c0); }
        },
    }
}

/// What resolving the types of the function at node `f` does.
pub open spec fn resolve_function_types_post(ctx_new: &IrCtx, ctx_old: &IrCtx, z: SymbolTableZipper, f: NodeRef, r: Result<(), SymbolResolutionError>) -> bool {
    &&& (resolve_post(ctx_new, ctx_old))
    &&& (forall|i: int| 0 <= i < ctx_old.nodes@.len() && i != f ==> ctx_new.nodes@[i] == ctx_old.nodes@[i])
    &&& (r is Ok ==> {
            let ofn = ctx_old.nodes@[f as int]->Function_0;
            let nfn = ctx_new.nodes@[f as int]->Function_0;
            &&& ctx_new.nodes@[f as int] is Function
            &&& nfn.name == ofn.name
            &&& nfn.body == ofn.body
            &&& nfn.args@.len() == ofn.args@.len()
            &&& forall|k: int| 0 <= k < ofn.args@.len() ==> (#[trigger] nfn.args@[k]).name == ofn.args@[k].name
                && resolved_sig(ctx_old.nodes@, arena_items(ctx_old.symbols), ctx_old.types.types@, z, ofn.args@[k].type_sig)
                    == Some(deep(ctx_new.types.types@, nfn.args@[k].type_sig))
            &&& resolved_sig(ctx_old.nodes@, arena_items(ctx_old.symbols), ctx_old.types.types@, z, ofn.return_type)
                == Some(deep(ctx_new.types.types@, nfn.return_type))
        })
    &&& (r matches Err(e) ==> e is TypeEval)
}

/// Resolves the type names in the argument and return types of the
/// function at node `f`.
#[verifier::loop_isolation(false)]
pub fn resolve_function_types(ctx: &mut IrCtx, z: &SymbolTableZipper, f: NodeRef) -> (r: Result<(), SymbolResolutionError>)
    requires
        old(ctx).wf(),
        zipper_ok(old(ctx).nodes@, arena_items(old(ctx).symbols), arena_ident(old(ctx).symbols), *z),
        crate::ir::node::is_func(old(ctx).nodes@, f as int),
    ensures
        resolve_function_types_post(final(ctx), old(ctx), *z, f, r),
{
    let ghost c0 = *ctx;
    proof {
        assert(node_ok(ctx.nodes@, f as int, ctx.types.types@.len() as int));
        lemma_nodes_compat_refl(ctx.nodes@);
    }
    let (sigs, ret) = match &ctx.nodes[f] {
        Node::Function(fun, _) => {
            let mut sigs: Vec<TypeSignature> = Vec::new();
            let mut i: usize = 0;
            while i < fun.args.len()
                invariant
                    i <= fun.args@.len(),
                    sigs@ == fun.args@.subrange(0, i as int).map_values(|a: crate::ir::node::FunctionArg| a.type_sig),
                decreases fun.args@.len() - i,
            {
                sigs.push(fun.args[i].type_sig);
                i = i + 1;
                assert(sigs@ =~= fun.args@.subrange(0, i as int).map_values(|a: crate::ir::node::FunctionArg| a.type_sig));
            }
            assert(fun.args@.subrange(0, fun.args@.len() as int) =~= fun.args@);
            (sigs, fun.return_type)
        },
        _ => { return unreached(); },
    };
    let ghost ofn = c0.nodes@[f as int]->Function_0;
    assert(sigs_in(sigs@, ctx.types.types@.len() as int)) by {
        assert forall|k: int| 0 <= k < sigs@.len() implies (#[trigger] sigs@[k]).id < ctx.types.types@.len() by {
            assert(sigs@[k] == ofn.args@[k].type_sig);
        }
    }
    let rs = match resolve_each(ctx, z, &sigs) {
        Ok(rs) => rs,
        Err(err) => {
            proof { lemma_eval_post_resolve_post(ctx, &c0); }
            return Err(SymbolResolutionError::TypeEval(err));
        },
    };
    let ghost c1 = *ctx;
    proof {
        lemma_resolved_sig_extends(c0.nodes@, arena_items(c0.symbols), arena_ident(c0.symbols), c1.types.types@, c0.types.types@, *z, ret);
    }
    let rr = match resolve_type_sig(ctx, z, ret) {
        Ok(x) => x,
        Err(err) => {
            proof {
                lemma_eval_post_trans(ctx, &c1, &c0);
                lemma_eval_post_resolve_post(ctx, &c0);
            }
            return Err(SymbolResolutionError::TypeEval(err));
        },
    };
    proof {
        lemma_eval_post_trans(ctx, &c1, &c0);
        assert forall|k: int| 0 <= k < sigs@.len() implies resolved_sig(c0.nodes@, arena_items(c0.symbols), c0.types.types@, *z,
            #[trigger] sigs@[k]) == Some(deep(ctx.types.types@, rs@[k])) by {
            lemma_deep_extends(ctx.types.types@, c1.types.types@, rs@[k]);
        }
        lemma_eval_post_resolve_post(ctx, &c0);
    }
    let ghost c2 = *ctx;
    let n = rs.len();
    let mut k: usize = 0;
    while k < n
        invariant
            k <= n,
            n == rs@.len(),
            n == ofn.args@.len(),
            ctx.wf(),
            ctx.types == c2.types,
            ctx.symbols == c2.symbols,
            ctx.nodes@.len() == c2.nodes@.len(),
            sigs_in(rs@, ctx.types.types@.len() as int),
            forall|i: int| 0 <= i < c2.nodes@.len() && i != f ==> ctx.nodes@[i] == c2.nodes@[i],
            ctx.nodes@[f as int] is Function,
            ctx.nodes@[f as int]->Function_0.name == ofn.name,
            ctx.nodes@[f as int]->Function_0.body == ofn.body,
            ctx.nodes@[f as int]->Function_0.return_type == ofn.return_type,
            ctx.nodes@[f as int]->Function_1 == c0.nodes@[f as int]->Function_1,
            ctx.nodes@[f as int]->Function_0.args@.len() == n,
            forall|j: int| 0 <= j < n ==> (#[trigger] ctx.nodes@[f as int]->Function_0.args@[j]).name == ofn.args@[j].name,
            forall|j: int| 0 <= j < k ==> (#[trigger] ctx.nodes@[f as int]->Function_0.args@[j]).type_sig == rs@[j],
        decreases n - k,
    {
        ctx.set_arg_type(f, k, rs[k]);
        k = k + 1;
    }
    ctx.set_return_type(f, rr);
    proof {
        assert forall|i: int| 0 <= i < c2.nodes@.len() implies #[trigger] node_compat(ctx.nodes@[i], c2.nodes@[i]) by {
            crate::ir::node::reveal_same_kind(c2.nodes@[i]);
        }
        lemma_resolve_post_trans(ctx, &c2, &c0);
        let nfn = ctx.nodes@[f as int]->Function_0;
        assert forall|j: int| 0 <= j < ofn.args@.len() implies (#[trigger] nfn.args@[j]).name == ofn.args@[j].name
            && resolved_sig(c0.nodes@, arena_items(c0.symbols), c0.types.types@, *z, ofn.args@[j].type_sig)
                == Some(deep(ctx.types.types@, nfn.args@[j].type_sig)) by {
            assert(sigs@[j] == ofn.args@[j].type_sig);
        }
    }
    Ok(())
}

/// What resolving the attribute types of the struct at node `d` does.
pub open spec fn resolve_struct_types_post(ctx_new: &IrCtx, ctx_old: &IrCtx, z: SymbolTableZipper, d: NodeRef, r: Result<(), SymbolResolutionError>) -> bool {
    &&& (resolve_post(ctx_new, ctx_old))
    &&& (forall|i: int| 0 <= i < ctx_old.nodes@.len() && i != d ==> ctx_new.nodes@[i] == ctx_old.nodes@[i])
    &&& (r is Ok ==> {
            let ost = ctx_old.nodes@[d as int]->Struct_0;
            let nst = ctx_new.nodes@[d as int]->Struct_0;
            &&& ctx_new.nodes@[d as int] is Struct
            &&& nst.name == ost.name
            &&& nst.attrs@.len() == ost.attrs@.len()
            &&& forall|k: int| 0 <= k < ost.attrs@.len() ==> (#[trigger] nst.attrs@[k]).name == ost.attrs@[k].name
                && nst.attrs@[k].default_value == ost.attrs@[k].default_value
                && nst.attrs@[k].mutability == ost.attrs@[k].mutability
                && resolved_sig(ctx_old.nodes@, arena_items(ctx_old.symbols), ctx_old.types.types@, z, ost.attrs@[k].type_sig)
                    == Some(deep(ctx_new.types.types@, nst.attrs@[k].type_sig))
        })
    &&& (r matches Err(e) ==> e is TypeEval)
}

/// Resolves the type names in the attribute types of the struct at node `d`.
#[verifier::loop_isolation(false)]
pub fn resolve_struct_types(ctx: &mut IrCtx, z: &SymbolTableZipper, d: NodeRef) -> (r: Result<(), SymbolResolutionError>)
    requires
        old(ctx).wf(),
        zipper_ok(old(ctx).nodes@, arena_items(old(ctx).symbols), arena_ident(old(ctx).symbols), *z),
        is_struct(old(ctx).nodes@, d as int),
    ensures
        resolve_struct_types_post(final(ctx), old(ctx), *z, d, r),
{
    let ghost c0 = *ctx;
    proof {
        assert(node_ok(ctx.nodes@, d as int, ctx.types.types@.len() as int));
        lemma_nodes_compat_refl(ctx.nodes@);
    }
    let sigs = match &ctx.nodes[d] {
        Node::Struct(st) => {
            let mut sigs: Vec<TypeSignature> = Vec::new();
            let mut i: usize = 0;
            while i < st.attrs.len()
                invariant
                    i <= st.attrs@.len(),
                    sigs@.len() == i,
                    forall|j: int| 0 <= j < i ==> #[trigger] sigs@[j] == st.attrs@[j].type_sig,
                decreases st.attrs@.len() - i,
            {
                sigs.push(st.attrs[i].type_sig);
                i = i + 1;
            }
            sigs
        },
        _ => { return unreached(); },
    };
    let ghost ost = c0.nodes@[d as int]->Struct_0;
    assert(sigs_in(sigs@, ctx.types.types@.len() as int)) by {
        assert forall|k: int| 0 <= k < sigs@.len() implies (#[trigger] sigs@[k]).id < ctx.types.types@.len() by {
            assert(sigs@[k] == ost.attrs@[k].type_sig);
        }
    }
    let rs = match resolve_each(ctx, z, &sigs) {
        Ok(rs) => rs,
        Err(err) => {
            proof { lemma_eval_post_resolve_post(ctx, &c0); }
            return Err(SymbolResolutionError::TypeEval(err));
        },
    };
    proof { lemma_eval_post_resolve_post(ctx, &c0); }
    let ghost c2 = *ctx;
    let n = rs.len();
    let mut k: usize = 0;
    while k < n
        invariant
            k <= n,
            n == rs@.len(),
            n == ost.attrs@.len(),
            ctx.wf(),
            ctx.types == c2.types,
            ctx.symbols == c2.symbols,
            ctx.nodes@.len() == c2.nodes@.len(),
            sigs_in(rs@, ctx.types.types@.len() as int),
            forall|i: int| 0 <= i < c2.nodes@.len() && i != d ==> ctx.nodes@[i] == c2.nodes@[i],
            ctx.nodes@[d as int] is Struct,
            ctx.nodes@[d as int]->Struct_0.name == ost.name,
            ctx.nodes@[d as int]->Struct_0.attrs@.len() == n,
            forall|j: int| 0 <= j < n ==> (#[trigger] ctx.nodes@[d as int]->Struct_0.attrs@[j]).name == ost.attrs@[j].name
                && ctx.nodes@[d as int]->Struct_0.attrs@[j].default_value == ost.attrs@[j].default_value
                && ctx.nodes@[d as int]->Struct_0.attrs@[j].mutability == ost.attrs@[j].mutability,
            forall|j: int| 0 <= j < k ==> (#[trigger] ctx.nodes@[d as int]->Struct_0.attrs@[j]).type_sig == rs@[j],
        decreases n - k,
    {
        ctx.set_attr_type(d, k, rs[k]);
        k = k + 1;
    }
    proof {
        assert forall|i: int| 0 <= i < c2.nodes@.len() implies #[trigger] node_compat(ctx.nodes@[i], c2.nodes@[i]) by {
            crate::ir::node::reveal_same_kind(c2.nodes@[i]);
        }
        lemma_resolve_post_trans(ctx, &c2, &c0);
        let nst = ctx.nodes@[d as int]->Struct_0;
        assert forall|j: int| 0 <= j < ost.attrs@.len() implies (#[trigger] nst.attrs@[j]).name == ost.attrs@[j].name
            && nst.attrs@[j].default_value == ost.attrs@[j].default_value
            && nst.attrs@[j].mutability == ost.attrs@[j].mutability
            && resolved_sig(c0.nodes@, arena_items(c0.symbols), c0.types.types@, *z, ost.attrs@[j].type_sig)
                == Some(deep(ctx.types.types@, nst.attrs@[j].type_sig)) by {
            assert(sigs@[j] == ost.attrs@[j].type_sig);
        }
    }
    Ok(())
}

/// Gives the items of value `k` of the enum at node `d` the types `rs`.
fn set_value_types(ctx: &mut IrCtx, d: NodeRef, k: usize, rs: &Vec<TypeSignature>)
    requires
        old(ctx).wf(),
        is_enum(old(ctx).nodes@, d as int),
        k < old(ctx).nodes@[d as int]->Enum_0.values@.len(),
        rs@.len() == old(ctx).nodes@[d as int]->Enum_0.values@[k as int].items@.len(),
        sigs_in(rs@, old(ctx).types.types@.len() as int),
    ensures
        final(ctx).wf(),
        final(ctx).types == old(ctx).types,
        final(ctx).symbols == old(ctx).symbols,
        final(ctx).nodes@.len() == old(ctx).nodes@.len(),
        forall|i: int| 0 <= i < old(ctx).nodes@.len() && i != d ==> final(ctx).nodes@[i] == old(ctx).nodes@[i],
        is_enum(final(ctx).nodes@, d as int),
        final(ctx).nodes@[d as int]->Enum_0.name == old(ctx).nodes@[d as int]->Enum_0.name,
        final(ctx).nodes@[d as int]->Enum_0.values@.len() == old(ctx).nodes@[d as int]->Enum_0.values@.len(),
        forall|i: int| 0 <= i < old(ctx).nodes@[d as int]->Enum_0.values@.len() && i != k ==>
            #[trigger] final(ctx).nodes@[d as int]->Enum_0.values@[i] == old(ctx).nodes@[d as int]->Enum_0.values@[i],
        final(ctx).nodes@[d as int]->Enum_0.values@[k as int].name == old(ctx).nodes@[d as int]->Enum_0.values@[k as int].name,
        final(ctx).nodes@[d as int]->Enum_0.values@[k as int].items@ == rs@,
{
    let ghost c0 = *ctx;
    let m = rs.len();
    let mut j: usize = 0;
    while j < m
        invariant
            j <= m,
            m == rs@.len(),
            ctx.wf(),
            ctx.types == c0.types,
            ctx.symbols == c0.symbols,
            ctx.nodes@.len() == c0.nodes@.len(),
            sigs_in(rs@, ctx.types.types@.len() as int),
            forall|i: int| 0 <= i < c0.nodes@.len() && i != d ==> ctx.nodes@[i] == c0.nodes@[i],
            is_enum(ctx.nodes@, d as int),
            k < c0.nodes@[d as int]->Enum_0.values@.len(),
            ctx.nodes@[d as int]->Enum_0.name == c0.nodes@[d as int]->Enum_0.name,
            ctx.nodes@[d as int]->Enum_0.values@.len() == c0.nodes@[d as int]->Enum_0.values@.len(),
            forall|i: int| 0 <= i < c0.nodes@[d as int]->Enum_0.values@.len() && i != k ==>
                #[trigger] ctx.nodes@[d as int]->Enum_0.values@[i] == c0.nodes@[d as int]->Enum_0.values@[i],
            ctx.nodes@[d as int]->Enum_0.values@[k as int].name == c0.nodes@[d as int]->Enum_0.values@[k as int].name,
            ctx.nodes@[d as int]->Enum_0.values@[k as int].items@.len() == m,
            forall|a: int| 0 <= a < j ==> #[trigger] ctx.nodes@[d as int]->Enum_0.values@[k as int].items@[a] == rs@[a],
        decreases m - j,
    {
        assert(rs@[j as int].id < ctx.types.types@.len());
        ctx.set_enum_item_type(d, k, j, rs[j]);
        j = j + 1;
    }
    assert(ctx.nodes@[d as int]->Enum_0.values@[k as int].items@ =~= rs@);
}

/// What resolving the item types of the enum at node `d` does.
pub open spec fn resolve_enum_types_post(ctx_new: &IrCtx, ctx_old: &IrCtx, z: SymbolTableZipper, d: NodeRef, r: Result<(), SymbolResolutionError>) -> bool {
    &&& (resolve_post(ctx_new, ctx_old))
    &&& (forall|i: int| 0 <= i < ctx_old.nodes@.len() && i != d ==> ctx_new.nodes@[i] == ctx_old.nodes@[i])
    &&& (r is Ok ==> {
            let oen = ctx_old.nodes@[d as int]->Enum_0;
            let nen = ctx_new.nodes@[d as int]->Enum_0;
            &&& ctx_new.nodes@[d as int] is Enum
            &&& nen.name == oen.name
            &&& nen.values@.len() == oen.values@.len()
            &&& forall|k: int| 0 <= k < oen.values@.len() ==> (#[trigger] nen.values@[k]).name == oen.values@[k].name
                && nen.values@[k].items@.len() == oen.values@[k].items@.len()
            &&& forall|k: int, j: int| 0 <= k < oen.values@.len() && 0 <= j < oen.values@[k].items@.len() ==> resolved_sig(
                ctx_old.nodes@,
                arena_items(ctx_old.symbols),
                ctx_old.types.types@,
                z,
                #[trigger] oen.values@[k].items@[j],
            ) == Some(deep(ctx_new.types.types@, nen.values@[k].items@[j]))
        })
    &&& (r matches Err(e) ==> e is TypeEval)
}

/// Resolves the type names in the item types of the values of the enum at
/// node `d`.
#[verifier::loop_isolation(false)]
pub fn resolve_enum_types(ctx: &mut IrCtx, z: &SymbolTableZipper, d: NodeRef) -> (r: Result<(), SymbolResolutionError>)
    requires
        old(ctx).wf(),
        zipper_ok(old(ctx).nodes@, arena_items(old(ctx).symbols), arena_ident(old(ctx).symbols), *z),
        is_enum(old(ctx).nodes@, d as int),
    ensures
        resolve_enum_types_post(final(ctx), old(ctx), *z, d, r),
{
    let ghost c0 = *ctx;
    let ghost nodes = ctx.nodes@;
    let ghost items = arena_items(ctx.symbols);
    let ghost aid = arena_ident(ctx.symbols);
    let ghost ov = c0.nodes@[d as int]->Enum_0.values@;
    proof {
        lemma_nodes_compat_refl(ctx.nodes@);
        assert(node_ok(ctx.nodes@, d as int, ctx.types.types@.len() as int));
    }
    let n = match &ctx.nodes[d] {
        Node::Enum(en) => en.values.len(),
        _ => { return unreached(); },
    };
    let mut all: Vec<Vec<TypeSignature>> = Vec::new();
    let mut k: usize = 0;
    while k < n
        invariant
            k <= n,
            n == ov.len(),
            eval_post(ctx, &c0),
            all@.len() == k,
            forall|a: int| 0 <= a < ov.len() ==> sigs_in((#[trigger] ov[a]).items@, c0.types.types@.len() as int),
            forall|a: int| 0 <= a < k ==> (#[trigger] all@[a])@.len() == ov[a].items@.len()
                && sigs_in(all@[a]@, ctx.types.types@.len() as int),
            forall|a: int, b: int| 0 <= a < k && 0 <= b < ov[a].items@.len() ==> resolved_sig(
                nodes,
                items,
                c0.types.types@,
                *z,
                #[trigger] ov[a].items@[b],
            ) == Some(deep(ctx.types.types@, all@[a]@[b])),
        decreases n - k,
    {
        let sigs = match &ctx.nodes[d] {
            Node::Enum(en) => crate::ir::types::copy_type_sigs(&en.values[k].items),
            _ => { return unreached(); },
        };
        let ghost c1 = *ctx;
        let rs = match resolve_each(ctx, z, &sigs) {
            Ok(rs) => rs,
            Err(err) => {
                proof {
                    lemma_eval_post_trans(ctx, &c1, &c0);
                    lemma_eval_post_resolve_post(ctx, &c0);
                }
                return Err(SymbolResolutionError::TypeEval(err));
            },
        };
        proof {
            lemma_eval_post_trans(ctx, &c1, &c0);
            assert forall|a: int, b: int| 0 <= a < k && 0 <= b < ov[a].items@.len() implies resolved_sig(
                nodes,
                items,
                c0.types.types@,
                *z,
                #[trigger] ov[a].items@[b],
            ) == Some(deep(ctx.types.types@, all@[a]@[b])) by {
                assert(all@[a]@[b].id < c1.types.types@.len());
                lemma_deep_extends(ctx.types.types@, c1.types.types@, all@[a]@[b]);
            }
            assert forall|b: int| 0 <= b < ov[k as int].items@.len() implies resolved_sig(
                nodes,
                items,
                c0.types.types@,
                *z,
                #[trigger] ov[k as int].items@[b],
            ) == Some(deep(ctx.types.types@, rs@[b])) by {
                assert(sigs@[b] == ov[k as int].items@[b]);
                lemma_resolved_sig_extends(nodes, items, aid, c1.types.types@, c0.types.types@, *z, sigs@[b]);
            }
            assert forall|a: int| 0 <= a < k implies sigs_in((#[trigger] all@[a])@, ctx.types.types@.len() as int) by {
                assert(sigs_in(all@[a]@, c1.types.types@.len() as int));
            }
        }
        all.push(rs);
        k = k + 1;
    }
    proof { lemma_eval_post_resolve_post(ctx, &c0); }
    let ghost c2 = *ctx;
    let mut k: usize = 0;
    while k < n
        invariant
            k <= n,
            n == ov.len(),
            all@.len() == n,
            ctx.wf(),
            ctx.types == c2.types,
            ctx.symbols == c2.symbols,
            ctx.nodes@.len() == c2.nodes@.len(),
            forall|i: int| 0 <= i < c2.nodes@.len() && i != d ==> ctx.nodes@[i] == c2.nodes@[i],
            is_enum(ctx.nodes@, d as int),
            ctx.nodes@[d as int]->Enum_0.name == c0.nodes@[d as int]->Enum_0.name,
            ctx.nodes@[d as int]->Enum_0.values@.len() == n,
            forall|a: int| 0 <= a < n ==> (#[trigger] ctx.nodes@[d as int]->Enum_0.values@[a]).name == ov[a].name,
            forall|a: int| 0 <= a < n ==> (#[trigger] all@[a])@.len() == ov[a].items@.len()
                && sigs_in(all@[a]@, ctx.types.types@.len() as int),
            forall|a: int| 0 <= a < k ==> (#[trigger] ctx.nodes@[d as int]->Enum_0.values@[a]).items@ == all@[a]@,
            forall|a: int| k <= a < n ==> (#[trigger] ctx.nodes@[d as int]->Enum_0.values@[a]).items@ == ov[a].items@,
        decreases n - k,
    {
        set_value_types(ctx, d, k, &all[k]);
        k = k + 1;
    }
    proof {
        assert forall|i: int| 0 <= i < c2.nodes@.len() implies #[trigger] node_compat(ctx.nodes@[i], c2.nodes@[i]) by {
            crate::ir::node::reveal_same_kind(c2.nodes@[i]);
        }
        lemma_resolve_post_trans(ctx, &c2, &c0);
    }
    Ok(())
}

/// Resolving the type of the escape block at node `e` kept its content and
/// span and gave it a type of the shape that the old one resolves to, or
/// failed where that type names nothing.
pub open spec fn escape_type_resolved(new: &IrCtx, old: &IrCtx, z: SymbolTableZipper, e: NodeRef, r: Result<(), SymbolResolutionError>) -> bool {
    let x = old.nodes@[e as int]->Expr_0;
    let y = new.nodes@[e as int]->Expr_0;
    let res = resolved_sig(old.nodes@, arena_items(old.symbols), old.types.types@, z, x->EscapeBlock_type_sig);
    &&& r is Ok ==> {
        &&& new.nodes@[e as int] is Expr
        &&& new.nodes@[e as int]->Expr_1 == old.nodes@[e as int]->Expr_1
        &&& y is EscapeBlock
        &&& y->EscapeBlock_content@ == x->EscapeBlock_content@
        &&& res == Some(deep(new.types.types@, y->EscapeBlock_type_sig))
    }
    &&& r matches Err(SymbolResolutionError::TypeEval(err)) ==> res is None
}

/// Resolving the type of the member access at node `e` kept its object,
/// member, items and span and gave it a type of the shape that the old one
/// resolves to, or failed where that type names nothing.
pub open spec fn member_type_resolved(new: &IrCtx, old: &IrCtx, z: SymbolTableZipper, e: NodeRef, r: Result<(), SymbolResolutionError>) -> bool {
    let x = old.nodes@[e as int]->Expr_0;
    let y = new.nodes@[e as int]->Expr_0;
    let res = resolved_sig(old.nodes@, arena_items(old.symbols), old.types.types@, z, x->UnresolvedMemberAccess_type_sig);
    &&& r is Ok ==> {
        &&& new.nodes@[e as int] is Expr
        &&& new.nodes@[e as int]->Expr_1 == old.nodes@[e as int]->Expr_1
        &&& y is UnresolvedMemberAccess
        &&& y->UnresolvedMemberAccess_object == x->UnresolvedMemberAccess_object
        &&& y->UnresolvedMemberAccess_member_name.name@ == x->UnresolvedMemberAccess_member_name.name@
        &&& y->UnresolvedMemberAccess_member_name.span == x->UnresolvedMemberAccess_member_name.span
        &&& (match (y->UnresolvedMemberAccess_items, x->UnresolvedMemberAccess_items) {
            (Some(a), Some(b)) => a@ == b@,
            (None, None) => true,
            _ => false,
        })
        &&& res == Some(deep(new.types.types@, y->UnresolvedMemberAccess_type_sig))
    }
    &&& r matches Err(SymbolResolutionError::TypeEval(err)) ==> res is None
}

/// Resolves the type names in the type of an escape block or of a member
/// access at node `e`; other expressions are left as they are.
pub fn resolve_expr_type(ctx: &mut IrCtx, z: &SymbolTableZipper, e: NodeRef) -> (r: Result<(), SymbolResolutionError>)
    requires
        old(ctx).wf(),
        zipper_ok(old(ctx).nodes@, arena_items(old(ctx).symbols), arena_ident(old(ctx).symbols), *z),
        is_expr(old(ctx).nodes@, e as int),
    ensures
        resolve_post(final(ctx), old(ctx)),
        forall|i: int| 0 <= i < old(ctx).nodes@.len() && i != e ==> final(ctx).nodes@[i] == old(ctx).nodes@[i],
        r matches Err(x) ==> x is TypeEval,
        !(old(ctx).nodes@[e as int]->Expr_0 is EscapeBlock || old(ctx).nodes@[e as int]->Expr_0 is UnresolvedMemberAccess)
            ==> r is Ok && *final(ctx) == *old(ctx),
        old(ctx).nodes@[e as int]->Expr_0 is EscapeBlock ==> escape_type_resolved(final(ctx), old(ctx), *z, e, r),
        old(ctx).nodes@[e as int]->Expr_0 is UnresolvedMemberAccess ==> member_type_resolved(final(ctx), old(ctx), *z, e, r),
{
    let ghost c0 = *ctx;
    proof {
        assert(node_ok(ctx.nodes@, e as int, ctx.types.types@.len() as int));
        lemma_nodes_compat_refl(ctx.nodes@);
    }
    let t = match &ctx.nodes[e] {
        Node::Expr(Expr::EscapeBlock { type_sig, .. }, _) => *type_sig,
        Node::Expr(Expr::UnresolvedMemberAccess { type_sig, .. }, _) => *type_sig,
        _ => { return Ok(()); },
    };
    let u = match resolve_type_sig(ctx, z, t) {
        Ok(u) => u,
        Err(err) => {
            proof { lemma_eval_post_resolve_post(ctx, &c0); }
            return Err(SymbolResolutionError::TypeEval(err));
        },
    };
    proof {
        lemma_eval_post_resolve_post(ctx, &c0);
        assert(node_ok(ctx.nodes@, e as int, ctx.types.types@.len() as int));
    }
    let ghost c1 = *ctx;
    let nx = match &ctx.nodes[e] {
        Node::Expr(Expr::EscapeBlock { content, .. }, _) => Expr::EscapeBlock { content: copy_chars(content), type_sig: u },
        Node::Expr(Expr::UnresolvedMemberAccess { object, member_name, items, .. }, _) => Expr::UnresolvedMemberAccess {
            object: *object,
            member_name: member_name.copy(),
            items: match items {
                Some(v) => Some(copy_refs(v)),
                None => None,
            },
            type_sig: u,
        },
        _ => { return unreached(); },
    };
    ctx.replace_expr(e, nx);
    proof {
        assert forall|i: int| 0 <= i < c1.nodes@.len() implies #[trigger] node_compat(ctx.nodes@[i], c1.nodes@[i]) by {
            crate::ir::node::reveal_same_kind(c1.nodes@[i]);
        }
        lemma_resolve_post_trans(ctx, &c1, &c0);
    }
    Ok(())
}

/// The state in which name resolution walks a program, at the scope of `z`.
pub open spec fn resolving_start(s: WalkState, z: SymbolTableZipper) -> bool {
    &&& s.pass == Pass::ResolveSymbols
    &&& s.symbols == z
    &&& s.constraints@.len() == 0
    &&& s.defining@.len() == 0
    &&& s.substitutions@ == Map::<usize, TypeSignature>::empty()
    &&& !s.needs_rerun
    &&& s.undeterminable@.len() == 0
    &&& s.previous_undeterminable@.len() == 0
}

/// What name resolution reports of the outcome `r` of its walk.
pub open spec fn resolution_result(r: Result<(), TypeCheckerError>) -> Result<(), SymbolResolutionError> {
    match r {
        Ok(()) => Ok(()),
        Err(TypeCheckerError::SymbolResolutionError(e)) => Err(e),
        Err(TypeCheckerError::Scope(e)) => Err(SymbolResolutionError::Scope(e)),
        Err(_) => arbitrary(),
    }
}

/// Resolves the names of a program against its symbol table: every name
/// used as a value must refer to a visible symbol other than a variable
/// whose value is being defined, struct and enum initializations must name
/// what exists, type names are replaced by the types they refer to, and
/// member accesses on values become attribute reads or enum values.
#[derive(Debug)]
pub struct SymbolResolver {
    pub symbols: SymbolTableZipper,
}

impl SymbolResolver {
    /// A resolver at the global scope of `symbols`.
    pub fn new(symbols: SymbolTable) -> (r: SymbolResolver)
        ensures
            r.symbols.cursor == symbols,
            r.symbols.visited_symbols == 0,
            r.symbols.breadcrumb@.len() == 0,
    {
        SymbolResolver { symbols: SymbolTableZipper::new(symbols) }
    }

    /// Resolves the names of the program whose top-level statements are
    /// `stmts`.
    pub fn resolve(&mut self, ctx: &mut IrCtx, stmts: &Vec<NodeRef>) -> (r: Result<(), SymbolResolutionError>)
        requires
            old(ctx).wf(),
            crate::parser::stmts_valid(old(ctx).nodes@, stmts@),
            zipper_ok(old(ctx).nodes@, arena_items(old(ctx).symbols), arena_ident(old(ctx).symbols), old(self).symbols),
        ensures
            resolve_post(final(ctx), old(ctx)),
            zipper_ok(final(ctx).nodes@, arena_items(final(ctx).symbols), arena_ident(final(ctx).symbols), final(self).symbols),
            r is Ok ==> same_scope(final(self).symbols, old(self).symbols),
            exists|s0: WalkState, ns: WalkState, r0: Result<(), TypeCheckerError>|
                #![trigger resolving_start(s0, old(self).symbols), walk_step(ns, *final(ctx), r0)]
                resolving_start(s0, old(self).symbols) && program_walked(s0, *old(ctx), stmts@, ns, *final(ctx), r0)
                && final(self).symbols == ns.symbols && r == resolution_result(r0),
    {
        let mut z = SymbolTableZipper::new(SymbolTable::new());
        std::mem::swap(&mut z, &mut self.symbols);
        let mut st = WalkState {
            pass: Pass::ResolveSymbols,
            symbols: z,
            constraints: std::collections::VecDeque::new(),
            defining: Vec::new(),
            substitutions: std::collections::HashMap::new(),
            needs_rerun: false,
            undeterminable: Vec::new(),
            previous_undeterminable: Vec::new(),
        };
        let ghost s0 = st;
        proof { assert(resolving_start(s0, old(self).symbols)); }
        let r = walk_program(&mut st, ctx, stmts);
        proof { assert(walk_step(st, *ctx, r)); }
        self.symbols = st.symbols;
        match r {
            Ok(_) => Ok(()),
            Err(TypeCheckerError::SymbolResolutionError(e)) => Err(e),
            Err(TypeCheckerError::Scope(e)) => Err(SymbolResolutionError::Scope(e)),
            Err(_) => unreached(),
        }
    }
}

} // verus!
