use vstd::prelude::*;

use super::context::{sigs_in, types_wf, IrCtx, TypeTable};
use super::node::{is_expr, is_func, is_struct, node_ok, nodes_wf, Expr, Ident, KeyView, Node, NodeRef, StructAttr};
use super::types::TypeEvalError;
use crate::symbols::symbol_table::symbol_table_zipper::{lemma_zipper_lookup_ok, zipper_lookup, zipper_ok, SymbolTableZipper};
use crate::symbols::symbol_table::{symbol_item, symbol_ok, SymbolValue};
use super::types::{type_children, BuiltinType, TypeSignature, TypeSignatureValue, TypeValue};
use crate::symbols::symbol_table::{arena_ident, arena_items, item_ok, SymbolValueItem};

verus! {

/// A type written out in full: the mathematical meaning of a reference into
/// a type table.
pub enum DeepType {
    Builtin(BuiltinType),
    Struct(Seq<char>),
    Enum(Seq<char>),
    Function(Seq<DeepType>, Box<DeepType>),
    Tuple(Seq<DeepType>),
    Var(usize),
    Unresolved(Seq<char>),
    /// A reference outside the table.
    Invalid,
}

/// The full type that `t` refers to in the table `types`.
pub open spec fn deep(types: Seq<TypeSignatureValue>, t: TypeSignature) -> DeepType
    decreases t.id,
{
    if t.id >= types.len() {
        DeepType::Invalid
    } else {
        match types[t.id as int]@ {
            TypeValue::Builtin(b) => DeepType::Builtin(b),
            TypeValue::Struct(n) => DeepType::Struct(n),
            TypeValue::Enum(n) => DeepType::Enum(n),
            TypeValue::TypeVariable(v) => DeepType::Var(v),
            TypeValue::Unresolved(n) => DeepType::Unresolved(n),
            TypeValue::Tuple(items) => DeepType::Tuple(
                Seq::new(items.len(), |i: int| if items[i].id < t.id { deep(types, items[i]) } else { DeepType::Invalid }),
            ),
            TypeValue::Function(args, ret) => DeepType::Function(
                Seq::new(args.len(), |i: int| if args[i].id < t.id { deep(types, args[i]) } else { DeepType::Invalid }),
                Box::new(if ret.id < t.id { deep(types, ret) } else { DeepType::Invalid }),
            ),
        }
    }
}

/// The full types of a list of references.
pub open spec fn deep_all(types: Seq<TypeSignatureValue>, ts: Seq<TypeSignature>) -> Seq<DeepType> {
    ts.map_values(|t: TypeSignature| deep(types, t))
}

/// Types keep their meaning when the table grows.
pub proof fn lemma_deep_extends(new: Seq<TypeSignatureValue>, old: Seq<TypeSignatureValue>, t: TypeSignature)
    requires
        old.len() <= new.len(),
        forall|i: int| 0 <= i < old.len() ==> #[trigger] new[i]@ == old[i]@,
        t.id < old.len(),
    ensures
        deep(new, t) == deep(old, t),
    decreases t.id,
{
    assert(new[t.id as int]@ == old[t.id as int]@);
    match old[t.id as int]@ {
        TypeValue::Tuple(items) => {
            assert forall|i: int| 0 <= i < items.len() && items[i].id < t.id implies deep(new, items[i]) == deep(old, items[i]) by {
                lemma_deep_extends(new, old, items[i]);
            }
            assert(deep(new, t)->Tuple_0 =~= deep(old, t)->Tuple_0);
        },
        TypeValue::Function(args, ret) => {
            assert forall|i: int| 0 <= i < args.len() && args[i].id < t.id implies deep(new, args[i]) == deep(old, args[i]) by {
                lemma_deep_extends(new, old, args[i]);
            }
            assert(deep(new, t)->Function_0 =~= deep(old, t)->Function_0);
            if ret.id < t.id {
                lemma_deep_extends(new, old, ret);
            }
        },
        _ => {},
    }
}

/// The full type of a table entry whose parts are all earlier entries.
pub proof fn lemma_deep_value(types: Seq<TypeSignatureValue>, t: TypeSignature)
    requires
        types_wf(types),
        t.id < types.len(),
    ensures
        types[t.id as int]@ matches TypeValue::Tuple(items) ==> deep(types, t) == DeepType::Tuple(deep_all(types, items)),
        types[t.id as int]@ matches TypeValue::Function(args, ret) ==> deep(types, t) == DeepType::Function(
            deep_all(types, args),
            Box::new(deep(types, ret)),
        ),
{
    match types[t.id as int]@ {
        TypeValue::Tuple(items) => {
            assert forall|i: int| 0 <= i < items.len() implies items[i].id < t.id by {
                assert(type_children(types[t.id as int]@)[i] == items[i]);
            }
            assert(deep(types, t)->Tuple_0 =~= deep_all(types, items));
        },
        TypeValue::Function(args, ret) => {
            assert forall|i: int| 0 <= i < args.len() implies args[i].id < t.id by {
                assert(type_children(types[t.id as int]@)[i] == args[i]);
            }
            assert(type_children(types[t.id as int]@)[args.len() as int] == ret);
            assert(deep(types, t)->Function_0 =~= deep_all(types, args));
        },
        _ => {},
    }
}

/// The type references of the arguments of the function at node `f`.
pub open spec fn arg_sigs(nodes: Seq<Node>, f: NodeRef) -> Seq<TypeSignature> {
    nodes[f as int]->Function_0.args@.map_values(|a: super::node::FunctionArg| a.type_sig)
}

/// The type of the value that a symbol item stands for.
pub open spec fn item_deep(nodes: Seq<Node>, types: Seq<TypeSignatureValue>, item: SymbolValueItem) -> DeepType {
    match item {
        SymbolValueItem::BuiltinType(b) => DeepType::Builtin(b),
        SymbolValueItem::VarDecl(v) => deep(types, nodes[v as int]->VarDecl_0.type_sig),
        SymbolValueItem::FuncDecl(f) => DeepType::Function(
            deep_all(types, arg_sigs(nodes, f)),
            Box::new(deep(types, nodes[f as int]->Function_0.return_type)),
        ),
        SymbolValueItem::FuncArg(f, k) => deep(types, nodes[f as int]->Function_0.args@[k as int].type_sig),
        SymbolValueItem::StructDecl(s) => DeepType::Struct(nodes[s as int]->Struct_0.name.name@),
        SymbolValueItem::StructAttr(s, k) => deep(types, nodes[s as int]->Struct_0.attrs@[k as int].type_sig),
        SymbolValueItem::StructInit(e) => DeepType::Struct(nodes[e as int]->Expr_0->StructInit_struct_name.name@),
        SymbolValueItem::EnumDecl(d) => DeepType::Enum(nodes[d as int]->Enum_0.name.name@),
        SymbolValueItem::EnumValue(d, _) => DeepType::Enum(nodes[d as int]->Enum_0.name.name@),
    }
}

/// What a type evaluation leaves alone and keeps: the nodes and symbols, a
/// well formed table that only grows.
pub open spec fn eval_post(new: &IrCtx, old: &IrCtx) -> bool {
    &&& new.wf()
    &&& IrCtx::extends(new, old)
    &&& new.nodes@ == old.nodes@
}

pub proof fn lemma_eval_post_trans(c: &IrCtx, b: &IrCtx, a: &IrCtx)
    requires
        eval_post(c, b),
        eval_post(b, a),
    ensures
        eval_post(c, a),
{
    assert forall|i: int| 0 <= i < a.types.types@.len() implies #[trigger] c.types.types@[i]@ == a.types.types@[i]@ by {
        assert(c.types.types@[i]@ == b.types.types@[i]@);
    }
}

/// The type of the value that `item` stands for.
pub fn item_type(ctx: &mut IrCtx, item: SymbolValueItem) -> (r: TypeSignature)
    requires
        old(ctx).wf(),
        item_ok(old(ctx).nodes@, item),
    ensures
        eval_post(final(ctx), old(ctx)),
        final(ctx).types.contains(r)
            && deep(final(ctx).types.types@, r) == item_deep(old(ctx).nodes@, old(ctx).types.types@, item),
{
    let ghost c0 = *ctx;
    proof {
        let r: int = match item {
            SymbolValueItem::BuiltinType(_) => 0,
            SymbolValueItem::VarDecl(v) => v as int,
            SymbolValueItem::FuncDecl(f) => f as int,
            SymbolValueItem::FuncArg(f, _) => f as int,
            SymbolValueItem::StructDecl(s) => s as int,
            SymbolValueItem::StructAttr(s, _) => s as int,
            SymbolValueItem::StructInit(e) => e as int,
            SymbolValueItem::EnumDecl(d) => d as int,
            SymbolValueItem::EnumValue(d, _) => d as int,
        };
        if !(item is BuiltinType) {
            assert(super::node::node_ok(ctx.nodes@, r, ctx.types.types@.len() as int));
        }
    }
    match item {
        SymbolValueItem::BuiltinType(b) => {
            ctx.types.builtin(b)
        },
        SymbolValueItem::VarDecl(v) => match &ctx.nodes[v] {
            Node::VarDecl(d) => d.type_sig,
            _ => unreached(),
        },
        SymbolValueItem::FuncArg(f, k) => match &ctx.nodes[f] {
            Node::Function(fun, _) => {
                assert(fun.args@[k as int].type_sig.id < ctx.types.types@.len());
                fun.args[k].type_sig
            },
            _ => unreached(),
        },
        SymbolValueItem::StructAttr(s, k) => match &ctx.nodes[s] {
            Node::Struct(st) => {
                assert(st.attrs@[k as int].type_sig.id < ctx.types.types@.len());
                st.attrs[k].type_sig
            },
            _ => unreached(),
        },
        SymbolValueItem::FuncDecl(f) => {
            let (args, ret) = match &ctx.nodes[f] {
                Node::Function(fun, _) => {
                    let mut args: Vec<TypeSignature> = Vec::new();
                    let mut i: usize = 0;
                    while i < fun.args.len()
                        invariant
                            i <= fun.args@.len(),
                            args@ == fun.args@.subrange(0, i as int).map_values(|a: super::node::FunctionArg| a.type_sig),
                        decreases fun.args@.len() - i,
                    {
                        args.push(fun.args[i].type_sig);
                        i = i + 1;
                        assert(args@ =~= fun.args@.subrange(0, i as int).map_values(|a: super::node::FunctionArg| a.type_sig));
                    }
                    assert(fun.args@.subrange(0, fun.args@.len() as int) =~= fun.args@);
                    (args, fun.return_type)
                },
                _ => { return unreached(); },
            };
            let ghost a = args@;
            assert(a == arg_sigs(c0.nodes@, f));
            assert(sigs_in(type_children(TypeValue::Function(a, ret)), ctx.types.types@.len() as int)) by {
                assert forall|k: int| 0 <= k < type_children(TypeValue::Function(a, ret)).len()
                    implies (#[trigger] type_children(TypeValue::Function(a, ret))[k]).id < ctx.types.types@.len() by {
                    if k < a.len() {
                        assert(type_children(TypeValue::Function(a, ret))[k] == a[k]);
                    }
                }
            }
            let t = ctx.intern(TypeSignatureValue::Function { args, return_type: ret });
            proof {
                lemma_deep_value(ctx.types.types@, t);
                assert forall|k: int| 0 <= k < a.len() implies #[trigger] deep(ctx.types.types@, a[k]) == deep(c0.types.types@, a[k]) by {
                    lemma_deep_extends(ctx.types.types@, c0.types.types@, a[k]);
                }
                lemma_deep_extends(ctx.types.types@, c0.types.types@, ret);
                assert(deep_all(ctx.types.types@, a) =~= deep_all(c0.types.types@, a));
            }
            t
        },
        SymbolValueItem::StructDecl(s) => {
            let name = match &ctx.nodes[s] {
                Node::Struct(st) => crate::ir::text::copy_chars(&st.name.name),
                _ => { return unreached(); },
            };
            ctx.intern(TypeSignatureValue::Struct { name })
        },
        SymbolValueItem::StructInit(e) => {
            let name = match &ctx.nodes[e] {
                Node::Expr(Expr::StructInit { struct_name, .. }, _) => crate::ir::text::copy_chars(&struct_name.name),
                _ => { return unreached(); },
            };
            ctx.intern(TypeSignatureValue::Struct { name })
        },
        SymbolValueItem::EnumDecl(d) | SymbolValueItem::EnumValue(d, _) => {
            let name = match &ctx.nodes[d] {
                Node::Enum(en) => crate::ir::text::copy_chars(&en.name.name),
                _ => { return unreached(); },
            };
            ctx.intern(TypeSignatureValue::Enum { name })
        },
    }
}

/// The position of the first attribute named `n`, or -1.
pub open spec fn attr_pos(attrs: Seq<StructAttr>, n: Seq<char>) -> int
    decreases attrs.len(),
{
    if attrs.len() == 0 {
        -1
    } else if attrs[0].name.name@ == n {
        0
    } else {
        let p = attr_pos(attrs.drop_first(), n);
        if p < 0 {
            -1
        } else {
            p + 1
        }
    }
}

pub proof fn lemma_attr_pos_at(attrs: Seq<StructAttr>, n: Seq<char>, i: int)
    requires
        0 <= i < attrs.len(),
        attrs[i].name.name@ == n,
        forall|j: int| 0 <= j < i ==> (#[trigger] attrs[j]).name.name@ != n,
    ensures
        attr_pos(attrs, n) == i,
    decreases i,
{
    if i > 0 {
        assert forall|j: int| 0 <= j < i - 1 implies (#[trigger] attrs.drop_first()[j]).name.name@ != n by {
            assert(attrs.drop_first()[j] == attrs[j + 1]);
        }
        lemma_attr_pos_at(attrs.drop_first(), n, i - 1);
    }
}

pub proof fn lemma_attr_pos_none(attrs: Seq<StructAttr>, n: Seq<char>)
    requires
        forall|j: int| 0 <= j < attrs.len() ==> (#[trigger] attrs[j]).name.name@ != n,
    ensures
        attr_pos(attrs, n) == -1,
    decreases attrs.len(),
{
    if attrs.len() > 0 {
        assert forall|j: int| 0 <= j < attrs.len() - 1 implies (#[trigger] attrs.drop_first()[j]).name.name@ != n by {
            assert(attrs.drop_first()[j] == attrs[j + 1]);
        }
        lemma_attr_pos_none(attrs.drop_first(), n);
    }
}

/// The struct declaration that the name `n` refers to at the zipper's position.
pub open spec fn struct_decl_of(nodes: Seq<Node>, items: Seq<SymbolValueItem>, z: SymbolTableZipper, n: Seq<char>) -> Option<NodeRef> {
    match zipper_lookup(nodes, items, z, KeyView::Named(n)) {
        Some(s) => match symbol_item(items, s) {
            SymbolValueItem::StructDecl(d) => Some(d),
            _ => None,
        },
        None => None,
    }
}

/// The type of attribute `attr` of a value of type `obj`: `obj` must be a
/// struct type whose name refers to a struct declaration with that attribute.
pub open spec fn attr_deep(
    nodes: Seq<Node>,
    items: Seq<SymbolValueItem>,
    types: Seq<TypeSignatureValue>,
    z: SymbolTableZipper,
    obj: Option<DeepType>,
    attr: Seq<char>,
) -> Option<DeepType> {
    match obj {
        Some(DeepType::Struct(n)) => match struct_decl_of(nodes, items, z, n) {
            Some(d) => {
                let attrs = nodes[d as int]->Struct_0.attrs@;
                let k = attr_pos(attrs, attr);
                if k >= 0 {
                    Some(deep(types, attrs[k].type_sig))
                } else {
                    None
                }
            },
            None => None,
        },
        _ => None,
    }
}

/// The types of the expressions `es`, all before node `bound`; none when one
/// of them has no type.
pub open spec fn exprs_deep(
    nodes: Seq<Node>,
    items: Seq<SymbolValueItem>,
    types: Seq<TypeSignatureValue>,
    z: SymbolTableZipper,
    es: Seq<NodeRef>,
    bound: int,
) -> Option<Seq<DeepType>>
    decreases bound, es.len(),
{
    if es.len() == 0 {
        Some(Seq::empty())
    } else if es.last() < bound {
        match exprs_deep(nodes, items, types, z, es.drop_last(), bound) {
            Some(ds) => match expr_deep(nodes, items, types, z, es.last()) {
                Some(d) => Some(ds.push(d)),
                None => None,
            },
            None => None,
        }
    } else {
        None
    }
}

/// The type of expression `e`, with names looked up at the zipper's
/// position; none when the expression has no type: a name that refers to
/// nothing, a call of a non-function, an attribute that the struct lacks,
/// an element beyond a tuple's end.
pub open spec fn expr_deep(
    nodes: Seq<Node>,
    items: Seq<SymbolValueItem>,
    types: Seq<TypeSignatureValue>,
    z: SymbolTableZipper,
    e: NodeRef,
) -> Option<DeepType>
    decreases e + 1, 0int,
{
    if !is_expr(nodes, e as int) {
        None
    } else {
        match nodes[e as int]->Expr_0 {
            Expr::Identifier(id) => match zipper_lookup(nodes, items, z, KeyView::Named(id.name@)) {
                Some(s) => Some(item_deep(nodes, types, symbol_item(items, s))),
                None => None,
            },
            Expr::StringLiteral(_) => Some(DeepType::Builtin(BuiltinType::String)),
            Expr::NumberLiteral(_) => Some(DeepType::Builtin(BuiltinType::Number)),
            Expr::BoolLiteral(_) => Some(DeepType::Builtin(BuiltinType::Boolean)),
            Expr::Tuple(es) => match exprs_deep(nodes, items, types, z, es@, e as int) {
                Some(ds) => Some(DeepType::Tuple(ds)),
                None => None,
            },
            Expr::TupleAccess { tuple_expr, attr } => if tuple_expr < e {
                match expr_deep(nodes, items, types, z, tuple_expr) {
                    Some(DeepType::Tuple(ds)) => if attr < ds.len() {
                        Some(ds[attr as int])
                    } else {
                        None
                    },
                    _ => None,
                }
            } else {
                None
            },
            Expr::FunctionCall { func, .. } => if func < e {
                match expr_deep(nodes, items, types, z, func) {
                    Some(DeepType::Function(_, ret)) => Some(*ret),
                    _ => None,
                }
            } else {
                None
            },
            Expr::Function(f) => Some(item_deep(nodes, types, SymbolValueItem::FuncDecl(f))),
            Expr::StructInit { struct_name, .. } => Some(DeepType::Struct(struct_name.name@)),
            Expr::StructAccess { struct_expr, attr_name } => if struct_expr < e {
                attr_deep(nodes, items, types, z, expr_deep(nodes, items, types, z, struct_expr), attr_name.name@)
            } else {
                None
            },
            Expr::MethodCall { struct_expr, attr_name, .. } => if struct_expr < e {
                match attr_deep(nodes, items, types, z, expr_deep(nodes, items, types, z, struct_expr), attr_name.name@) {
                    Some(DeepType::Function(_, ret)) => Some(*ret),
                    _ => None,
                }
            } else {
                None
            },
            Expr::EnumInit { enum_name, .. } => Some(DeepType::Enum(enum_name@)),
            Expr::UnresolvedMemberAccess { type_sig, .. } => Some(deep(types, type_sig)),
            Expr::Assignment { rhs, .. } => if rhs < e {
                expr_deep(nodes, items, types, z, rhs)
            } else {
                None
            },
            Expr::EscapeBlock { type_sig, .. } => Some(deep(types, type_sig)),
        }
    }
}

/// `new` keeps the entries of `old`.
pub open spec fn table_extends(new: Seq<TypeSignatureValue>, old: Seq<TypeSignatureValue>) -> bool {
    &&& old.len() <= new.len()
    &&& forall|i: int| 0 <= i < old.len() ==> #[trigger] new[i]@ == old[i]@
}

/// The type of a valid item keeps its meaning when the table grows.
pub proof fn lemma_item_deep_extends(nodes: Seq<Node>, new: Seq<TypeSignatureValue>, old: Seq<TypeSignatureValue>, item: SymbolValueItem)
    requires
        table_extends(new, old),
        nodes_wf(nodes, old.len() as int),
        item_ok(nodes, item),
    ensures
        item_deep(nodes, new, item) == item_deep(nodes, old, item),
{
    let tl = old.len() as int;
    match item {
        SymbolValueItem::VarDecl(v) => {
            assert(node_ok(nodes, v as int, tl));
            lemma_deep_extends(new, old, nodes[v as int]->VarDecl_0.type_sig);
        },
        SymbolValueItem::FuncDecl(f) => {
            assert(node_ok(nodes, f as int, tl));
            let a = arg_sigs(nodes, f);
            assert forall|k: int| 0 <= k < a.len() implies #[trigger] deep(new, a[k]) == deep(old, a[k]) by {
                assert(nodes[f as int]->Function_0.args@[k].type_sig.id < tl);
                lemma_deep_extends(new, old, a[k]);
            }
            assert(deep_all(new, a) =~= deep_all(old, a));
            lemma_deep_extends(new, old, nodes[f as int]->Function_0.return_type);
        },
        SymbolValueItem::FuncArg(f, k) => {
            assert(node_ok(nodes, f as int, tl));
            assert(nodes[f as int]->Function_0.args@[k as int].type_sig.id < tl);
            lemma_deep_extends(new, old, nodes[f as int]->Function_0.args@[k as int].type_sig);
        },
        SymbolValueItem::StructAttr(s, k) => {
            assert(node_ok(nodes, s as int, tl));
            assert(nodes[s as int]->Struct_0.attrs@[k as int].type_sig.id < tl);
            lemma_deep_extends(new, old, nodes[s as int]->Struct_0.attrs@[k as int].type_sig);
        },
        _ => {},
    }
}

/// The type of attribute `attr` keeps its meaning when the table grows.
pub proof fn lemma_attr_deep_extends(
    nodes: Seq<Node>,
    items: Seq<SymbolValueItem>,
    aid: u32,
    new: Seq<TypeSignatureValue>,
    old: Seq<TypeSignatureValue>,
    z: SymbolTableZipper,
    obj: Option<DeepType>,
    attr: Seq<char>,
)
    requires
        table_extends(new, old),
        nodes_wf(nodes, old.len() as int),
        zipper_ok(nodes, items, aid, z),
    ensures
        attr_deep(nodes, items, new, z, obj, attr) == attr_deep(nodes, items, old, z, obj, attr),
{
    if let Some(DeepType::Struct(n)) = obj {
        lemma_zipper_lookup_ok(nodes, items, aid, z, KeyView::Named(n));
        if let Some(d) = struct_decl_of(nodes, items, z, n) {
            assert(node_ok(nodes, d as int, old.len() as int));
            let attrs = nodes[d as int]->Struct_0.attrs@;
            let k = attr_pos(attrs, attr);
            if k >= 0 {
                lemma_attr_pos_bound(attrs, attr);
                assert(attrs[k].type_sig.id < old.len());
                lemma_deep_extends(new, old, attrs[k].type_sig);
            }
        }
    }
}

pub proof fn lemma_attr_pos_bound(attrs: Seq<StructAttr>, n: Seq<char>)
    ensures
        attr_pos(attrs, n) < attrs.len(),
        attr_pos(attrs, n) >= 0 ==> attrs[attr_pos(attrs, n)].name.name@ == n,
        attr_pos(attrs, n) >= -1,
    decreases attrs.len(),
{
    if attrs.len() > 0 {
        lemma_attr_pos_bound(attrs.drop_first(), n);
    }
}

/// The types of expressions keep their meaning when the table grows.
pub proof fn lemma_exprs_deep_extends(
    nodes: Seq<Node>,
    items: Seq<SymbolValueItem>,
    aid: u32,
    new: Seq<TypeSignatureValue>,
    old: Seq<TypeSignatureValue>,
    z: SymbolTableZipper,
    es: Seq<NodeRef>,
    bound: int,
)
    requires
        table_extends(new, old),
        nodes_wf(nodes, old.len() as int),
        zipper_ok(nodes, items, aid, z),
    ensures
        exprs_deep(nodes, items, new, z, es, bound) == exprs_deep(nodes, items, old, z, es, bound),
    decreases bound, es.len(),
{
    if es.len() > 0 && es.last() < bound {
        lemma_exprs_deep_extends(nodes, items, aid, new, old, z, es.drop_last(), bound);
        lemma_expr_deep_extends(nodes, items, aid, new, old, z, es.last());
    }
}

/// The type of an expression keeps its meaning when the table grows.
pub proof fn lemma_expr_deep_extends(
    nodes: Seq<Node>,
    items: Seq<SymbolValueItem>,
    aid: u32,
    new: Seq<TypeSignatureValue>,
    old: Seq<TypeSignatureValue>,
    z: SymbolTableZipper,
    e: NodeRef,
)
    requires
        table_extends(new, old),
        nodes_wf(nodes, old.len() as int),
        zipper_ok(nodes, items, aid, z),
    ensures
        expr_deep(nodes, items, new, z, e) == expr_deep(nodes, items, old, z, e),
    decreases e + 1, 0int,
{
    if is_expr(nodes, e as int) {
        let tl = old.len() as int;
        assert(node_ok(nodes, e as int, tl));
        match nodes[e as int]->Expr_0 {
            Expr::Identifier(id) => {
                lemma_zipper_lookup_ok(nodes, items, aid, z, KeyView::Named(id.name@));
                if let Some(s) = zipper_lookup(nodes, items, z, KeyView::Named(id.name@)) {
                    lemma_item_deep_extends(nodes, new, old, symbol_item(items, s));
                }
            },
            Expr::Tuple(es) => {
                lemma_exprs_deep_extends(nodes, items, aid, new, old, z, es@, e as int);
            },
            Expr::TupleAccess { tuple_expr, .. } => {
                if tuple_expr < e {
                    lemma_expr_deep_extends(nodes, items, aid, new, old, z, tuple_expr);
                }
            },
            Expr::FunctionCall { func, .. } => {
                if func < e {
                    lemma_expr_deep_extends(nodes, items, aid, new, old, z, func);
                }
            },
            Expr::Function(f) => {
                lemma_item_deep_extends(nodes, new, old, SymbolValueItem::FuncDecl(f));
            },
            Expr::StructAccess { struct_expr, attr_name } => {
                if struct_expr < e {
                    lemma_expr_deep_extends(nodes, items, aid, new, old, z, struct_expr);
                    lemma_attr_deep_extends(nodes, items, aid, new, old, z, expr_deep(nodes, items, old, z, struct_expr), attr_name.name@);
                }
            },
            Expr::MethodCall { struct_expr, attr_name, .. } => {
                if struct_expr < e {
                    lemma_expr_deep_extends(nodes, items, aid, new, old, z, struct_expr);
                    lemma_attr_deep_extends(nodes, items, aid, new, old, z, expr_deep(nodes, items, old, z, struct_expr), attr_name.name@);
                }
            },
            Expr::UnresolvedMemberAccess { type_sig, .. } => {
                lemma_deep_extends(new, old, type_sig);
            },
            Expr::Assignment { rhs, .. } => {
                if rhs < e {
                    lemma_expr_deep_extends(nodes, items, aid, new, old, z, rhs);
                }
            },
            Expr::EscapeBlock { type_sig, .. } => {
                lemma_deep_extends(new, old, type_sig);
            },
            _ => {},
        }
    }
}

/// A prefix of a list without a type leaves the whole list without one.
pub proof fn lemma_exprs_deep_prefix_none(
    nodes: Seq<Node>,
    items: Seq<SymbolValueItem>,
    types: Seq<TypeSignatureValue>,
    z: SymbolTableZipper,
    es: Seq<NodeRef>,
    bound: int,
    i: int,
)
    requires
        0 <= i <= es.len(),
        exprs_deep(nodes, items, types, z, es.take(i), bound) is None,
    ensures
        exprs_deep(nodes, items, types, z, es, bound) is None,
    decreases es.len() - i,
{
    if i == es.len() {
        assert(es.take(i) =~= es);
    } else {
        assert(es.drop_last().take(i) =~= es.take(i));
        lemma_exprs_deep_prefix_none(nodes, items, types, z, es.drop_last(), bound, i);
    }
}

/// The type of attribute `attr` of a value of type `obj`.
#[verifier::loop_isolation(false)]
pub fn attr_type(ctx: &IrCtx, z: &SymbolTableZipper, obj: TypeSignature, attr: &Ident) -> (r: Result<TypeSignature, TypeEvalError>)
    requires
        ctx.wf(),
        ctx.types.contains(obj),
        zipper_ok(ctx.nodes@, arena_items(ctx.symbols), arena_ident(ctx.symbols), *z),
    ensures
        r matches Ok(t) ==> ctx.types.contains(t) && attr_deep(ctx.nodes@, arena_items(ctx.symbols), ctx.types.types@, *z,
            Some(deep(ctx.types.types@, obj)), attr.name@) == Some(deep(ctx.types.types@, t)),
        r is Err ==> attr_deep(ctx.nodes@, arena_items(ctx.symbols), ctx.types.types@, *z, Some(deep(ctx.types.types@, obj)), attr.name@) is None,
{
    let ghost nodes = ctx.nodes@;
    let ghost items = arena_items(ctx.symbols);
    let name = match ctx.types.get(obj) {
        TypeSignatureValue::Struct { name } => crate::ir::text::copy_chars(name),
        _ => { return Err(TypeEvalError::AccessNonStruct(obj)); },
    };
    let key = super::node::IdentKey::Named(crate::ir::text::copy_chars(&name));
    let sym = match z.lookup(ctx, &key) {
        Some(s) => s,
        None => { return Err(TypeEvalError::UnknownIdent(Ident { name, span: attr.span })); },
    };
    let item = match crate::symbols::symbol_table::get_symbol(&ctx.symbols, sym.id) {
        Some(it) => it,
        None => { return unreached(); },
    };
    let d = match item {
        SymbolValueItem::StructDecl(d) => d,
        _ => { return Err(TypeEvalError::Lookup(Ident { name, span: attr.span })); },
    };
    proof {
        assert(node_ok(nodes, d as int, ctx.types.types@.len() as int));
    }
    let attrs = match &ctx.nodes[d] {
        Node::Struct(st) => &st.attrs,
        _ => { return unreached(); },
    };
    let mut i: usize = 0;
    while i < attrs.len()
        invariant
            i <= attrs@.len(),
            forall|j: int| 0 <= j < i ==> (#[trigger] attrs@[j]).name.name@ != attr.name@,
        decreases attrs@.len() - i,
    {
        if crate::ir::text::chars_eq(&attrs[i].name.name, &attr.name) {
            proof {
                lemma_attr_pos_at(attrs@, attr.name@, i as int);
                assert(deep(ctx.types.types@, obj) == DeepType::Struct(name@));
                assert(symbol_item(items, sym) == item);
                assert(struct_decl_of(nodes, items, *z, name@) == Some(d));
                assert(nodes[d as int]->Struct_0.attrs@ == attrs@);
            }
            return Ok(attrs[i].type_sig);
        }
        i = i + 1;
    }
    proof {
        lemma_attr_pos_none(attrs@, attr.name@);
        assert(deep(ctx.types.types@, obj) == DeepType::Struct(name@));
        assert(symbol_item(items, sym) == item);
        assert(struct_decl_of(nodes, items, *z, name@) == Some(d));
        assert(nodes[d as int]->Struct_0.attrs@ == attrs@);
    }
    Err(TypeEvalError::UnknownIdent(attr.copy()))
}

/// The types of the expressions `es`, all before node `bound`.
#[verifier::loop_isolation(false)]
fn eval_types(ctx: &mut IrCtx, z: &SymbolTableZipper, es: &Vec<NodeRef>, bound: usize) -> (r: Result<Vec<TypeSignature>, TypeEvalError>)
    requires
        old(ctx).wf(),
        forall|k: int| 0 <= k < es@.len() ==> #[trigger] es@[k] < bound && is_expr(old(ctx).nodes@, es@[k] as int),
        zipper_ok(old(ctx).nodes@, arena_items(old(ctx).symbols), arena_ident(old(ctx).symbols), *z),
    ensures
        eval_post(final(ctx), old(ctx)),
        r matches Ok(ts) ==> sigs_in(ts@, final(ctx).types.types@.len() as int)
            && exprs_deep(old(ctx).nodes@, arena_items(old(ctx).symbols), old(ctx).types.types@, *z, es@, bound as int)
                == Some(deep_all(final(ctx).types.types@, ts@)),
        r matches Err(err) ==> exprs_deep(old(ctx).nodes@, arena_items(old(ctx).symbols), old(ctx).types.types@, *z, es@, bound as int) is None,
    decreases bound, es@.len(),
{
    let ghost c0 = *ctx;
    let ghost nodes = ctx.nodes@;
    let ghost items = arena_items(ctx.symbols);
    let ghost aid = arena_ident(ctx.symbols);
    let mut ts: Vec<TypeSignature> = Vec::new();
    let mut i: usize = 0;
    assert(es@.take(0) =~= Seq::<NodeRef>::empty());
    assert(deep_all(ctx.types.types@, ts@) =~= Seq::<DeepType>::empty());
    while i < es.len()
        invariant
            i <= es@.len(),
            nodes == c0.nodes@,
            items == arena_items(c0.symbols),
            aid == arena_ident(c0.symbols),
            c0.wf(),
            eval_post(ctx, &c0),
            forall|k: int| 0 <= k < es@.len() ==> #[trigger] es@[k] < bound && is_expr(nodes, es@[k] as int),
            zipper_ok(nodes, items, aid, *z),
            sigs_in(ts@, ctx.types.types@.len() as int),
            exprs_deep(nodes, items, c0.types.types@, *z, es@.take(i as int), bound as int) == Some(deep_all(ctx.types.types@, ts@)),
        decreases es@.len() - i,
    {
        let ghost c1 = *ctx;
        let x = es[i];
        assert(es@.take(i + 1).drop_last() =~= es@.take(i as int));
        assert(es@.take(i + 1).last() == x);
        match eval_type(ctx, z, x) {
            Ok(t) => {
                proof {
                    lemma_expr_deep_extends(nodes, items, aid, c1.types.types@, c0.types.types@, *z, x);
                    assert forall|k: int| 0 <= k < ts@.len() implies #[trigger] deep(ctx.types.types@, ts@[k]) == deep(c1.types.types@, ts@[k]) by {
                        lemma_deep_extends(ctx.types.types@, c1.types.types@, ts@[k]);
                    }
                    assert(deep_all(ctx.types.types@, ts@) =~= deep_all(c1.types.types@, ts@));
                }
                ts.push(t);
                proof {
                    assert(deep_all(ctx.types.types@, ts@) =~= deep_all(c1.types.types@, ts@.drop_last()).push(deep(ctx.types.types@, t)));
                }
            },
            Err(err) => {
                proof {
                    lemma_eval_post_trans(ctx, &c1, &c0);
                    lemma_expr_deep_extends(nodes, items, aid, c1.types.types@, c0.types.types@, *z, x);
                    lemma_exprs_deep_prefix_none(nodes, items, c0.types.types@, *z, es@, bound as int, i + 1);
                }
                return Err(err);
            },
        }
        i = i + 1;
    }
    assert(es@.take(es@.len() as int) =~= es@);
    Ok(ts)
}

#[verifier::rlimit(60)]
/// The type of expression `e`, with names looked up at the zipper's
/// position. Composite types are added to the table as needed.
pub fn eval_type(ctx: &mut IrCtx, z: &SymbolTableZipper, e: NodeRef) -> (r: Result<TypeSignature, TypeEvalError>)
    requires
        old(ctx).wf(),
        is_expr(old(ctx).nodes@, e as int),
        zipper_ok(old(ctx).nodes@, arena_items(old(ctx).symbols), arena_ident(old(ctx).symbols), *z),
    ensures
        eval_post(final(ctx), old(ctx)),
        r matches Ok(t) ==> final(ctx).types.contains(t)
            && expr_deep(old(ctx).nodes@, arena_items(old(ctx).symbols), old(ctx).types.types@, *z, e)
                == Some(deep(final(ctx).types.types@, t)),
        r matches Err(err) ==> expr_deep(old(ctx).nodes@, arena_items(old(ctx).symbols), old(ctx).types.types@, *z, e) is None,
    decreases e + 1, 0int,
{
    let ghost c0 = *ctx;
    let ghost nodes = ctx.nodes@;
    let ghost items = arena_items(ctx.symbols);
    let ghost aid = arena_ident(ctx.symbols);
    proof {
        assert(node_ok(nodes, e as int, ctx.types.types@.len() as int));
    }
    let ex = match &ctx.nodes[e] {
        Node::Expr(ex, _) => ex,
        _ => { return unreached(); },
    };
    match ex {
        Expr::Identifier(id) => {
            let key = id.key();
            let sym = match z.lookup(ctx, &key) {
                Some(s) => s,
                None => { return Err(TypeEvalError::UnknownIdent(id.copy())); },
            };
            let item = match crate::symbols::symbol_table::get_symbol(&ctx.symbols, sym.id) {
                Some(it) => it,
                None => { return unreached(); },
            };
            Ok(item_type(ctx, item))
        },
        Expr::StringLiteral(_) => Ok(ctx.types.builtin(BuiltinType::String)),
        Expr::NumberLiteral(_) => Ok(ctx.types.builtin(BuiltinType::Number)),
        Expr::BoolLiteral(_) => Ok(ctx.types.builtin(BuiltinType::Boolean)),
        Expr::Tuple(es) => {
            let es = crate::ir::text::copy_refs(es);
            let ts = eval_types(ctx, z, &es, e)?;
            let ghost c1 = *ctx;
            let ghost tsv = ts@;
            let t = ctx.intern(TypeSignatureValue::Tuple(ts));
            proof {
                lemma_deep_value(ctx.types.types@, t);
                assert forall|k: int| 0 <= k < tsv.len() implies #[trigger] deep(ctx.types.types@, tsv[k]) == deep(c1.types.types@, tsv[k]) by {
                    lemma_deep_extends(ctx.types.types@, c1.types.types@, tsv[k]);
                }
                assert(deep_all(ctx.types.types@, tsv) =~= deep_all(c1.types.types@, tsv));
            }
            Ok(t)
        },
        Expr::TupleAccess { tuple_expr, attr } => {
            let tuple_expr = *tuple_expr;
            let attr = *attr;
            let tt = eval_type(ctx, z, tuple_expr)?;
            proof { lemma_deep_value(ctx.types.types@, tt); }
            match ctx.types.get(tt) {
                TypeSignatureValue::Tuple(ids) => {
                    if attr < ids.len() {
                        proof { assert(type_children(ctx.types.value(tt))[attr as int] == ids@[attr as int]); }
                        Ok(ids[attr])
                    } else {
                        Err(TypeEvalError::TupleAccess(tt, attr))
                    }
                },
                _ => Err(TypeEvalError::TupleAccess(tt, attr)),
            }
        },
        Expr::FunctionCall { func, .. } => {
            let func = *func;
            let tf = eval_type(ctx, z, func)?;
            proof { lemma_deep_value(ctx.types.types@, tf); }
            match ctx.types.get(tf) {
                TypeSignatureValue::Function { args, return_type } => {
                    proof { assert(type_children(ctx.types.value(tf))[args@.len() as int] == *return_type); }
                    Ok(*return_type)
                },
                _ => Err(TypeEvalError::CallNonFunction(tf)),
            }
        },
        Expr::Function(f) => {
            let f = *f;
            Ok(item_type(ctx, SymbolValueItem::FuncDecl(f)))
        },
        Expr::StructInit { struct_name, .. } => {
            let name = crate::ir::text::copy_chars(&struct_name.name);
            Ok(ctx.intern(TypeSignatureValue::Struct { name }))
        },
        Expr::StructAccess { struct_expr, attr_name } => {
            let struct_expr = *struct_expr;
            let attr_name = attr_name.copy();
            let ts = eval_type(ctx, z, struct_expr)?;
            proof {
                lemma_attr_deep_extends(nodes, items, aid, ctx.types.types@, c0.types.types@, *z,
                    Some(deep(ctx.types.types@, ts)), attr_name.name@);
            }
            attr_type(ctx, z, ts, &attr_name)
        },
        Expr::MethodCall { struct_expr, attr_name, .. } => {
            let struct_expr = *struct_expr;
            let attr_name = attr_name.copy();
            let ts = eval_type(ctx, z, struct_expr)?;
            proof {
                lemma_attr_deep_extends(nodes, items, aid, ctx.types.types@, c0.types.types@, *z,
                    Some(deep(ctx.types.types@, ts)), attr_name.name@);
            }
            let ta = attr_type(ctx, z, ts, &attr_name)?;
            proof { lemma_deep_value(ctx.types.types@, ta); }
            match ctx.types.get(ta) {
                TypeSignatureValue::Function { args, return_type } => {
                    proof { assert(type_children(ctx.types.value(ta))[args@.len() as int] == *return_type); }
                    Ok(*return_type)
                },
                _ => Err(TypeEvalError::CallNonFunction(ta)),
            }
        },
        Expr::EnumInit { enum_name, .. } => {
            let name = crate::ir::text::copy_chars(enum_name);
            Ok(ctx.intern(TypeSignatureValue::Enum { name }))
        },
        Expr::UnresolvedMemberAccess { type_sig, .. } => Ok(*type_sig),
        Expr::Assignment { rhs, .. } => {
            let rhs = *rhs;
            eval_type(ctx, z, rhs)
        },
        Expr::EscapeBlock { type_sig, .. } => Ok(*type_sig),
    }
}

/// In a well formed table a shape occurs once, so two references with the
/// same shape are the same reference.
pub proof fn lemma_same_shape_same_ref(types: Seq<TypeSignatureValue>, a: TypeSignature, b: TypeSignature)
    requires
        types_wf(types),
        a.id < types.len(),
        b.id < types.len(),
        types[a.id as int]@ == types[b.id as int]@,
    ensures
        a == b,
{
}

/// Two references of a well formed table stand for the same type exactly
/// when they are the same reference: types are compared by reference.
pub proof fn lemma_deep_injective(types: Seq<TypeSignatureValue>, a: TypeSignature, b: TypeSignature)
    requires
        types_wf(types),
        a.id < types.len(),
        b.id < types.len(),
    ensures
        deep(types, a) == deep(types, b) <==> a == b,
    decreases a.id + b.id,
{
    if deep(types, a) == deep(types, b) {
        lemma_deep_value(types, a);
        lemma_deep_value(types, b);
        match (types[a.id as int]@, types[b.id as int]@) {
            (TypeValue::Tuple(xs), TypeValue::Tuple(ys)) => {
                assert(deep_all(types, xs) == deep_all(types, ys));
                assert(xs.len() == ys.len()) by {
                    assert(deep_all(types, xs).len() == deep_all(types, ys).len());
                }
                assert forall|i: int| 0 <= i < xs.len() implies xs[i] == ys[i] by {
                    assert(type_children(types[a.id as int]@)[i] == xs[i]);
                    assert(type_children(types[b.id as int]@)[i] == ys[i]);
                    assert(deep_all(types, xs)[i] == deep_all(types, ys)[i]);
                    lemma_deep_injective(types, xs[i], ys[i]);
                }
                assert(xs =~= ys);
            },
            (TypeValue::Function(xs, ra), TypeValue::Function(ys, rb)) => {
                assert(deep_all(types, xs) == deep_all(types, ys));
                assert(xs.len() == ys.len()) by {
                    assert(deep_all(types, xs).len() == deep_all(types, ys).len());
                }
                assert forall|i: int| 0 <= i < xs.len() implies xs[i] == ys[i] by {
                    assert(type_children(types[a.id as int]@)[i] == xs[i]);
                    assert(type_children(types[b.id as int]@)[i] == ys[i]);
                    assert(deep_all(types, xs)[i] == deep_all(types, ys)[i]);
                    lemma_deep_injective(types, xs[i], ys[i]);
                }
                assert(xs =~= ys);
                assert(type_children(types[a.id as int]@)[xs.len() as int] == ra);
                assert(type_children(types[b.id as int]@)[ys.len() as int] == rb);
                lemma_deep_injective(types, ra, rb);
            },
            _ => {},
        }
    }
}

} // verus!
