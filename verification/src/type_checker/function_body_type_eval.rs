use vstd::prelude::*;

use crate::ir::context::IrCtx;
use crate::ir::node::{is_func, node_ok, Node, NodeRef, Stmt};
use crate::ir::typed::{deep, eval_post, eval_type, expr_deep, lemma_eval_post_trans, lemma_expr_deep_extends, DeepType};
use crate::ir::types::{BuiltinType, TypeEvalError, TypeSignature, TypeSignatureValue};
use crate::symbols::symbol_table::symbol_table_zipper::{zipper_ok, SymbolTableZipper};
use crate::symbols::symbol_table::{arena_ident, arena_items, SymbolValueItem};

use super::coercion::{coerce, coerce_shape, coerces_to, lemma_coerce_by_shape, lemma_coerce_symmetric_success, spec_coerce};

verus! {

/// Errors while working out the type of a function body.
#[derive(Debug)]
pub enum FunctionTypeError {
    /// An expression of the function's body has no type.
    ExprValue(NodeRef, Box<TypeEvalError>),
    /// Two values handed back by the function, or one of them and the
    /// declared result type, do not meet.
    ConflictingReturnTypes(NodeRef, TypeSignature, TypeSignature),
    WrongNumberOfArgs { func: NodeRef, expected: usize, actual: usize },
}

/// What working out a function body's type keeps of the zipper: its
/// tables and scope; only the count of declared variables moves on.
pub open spec fn zipper_moves(new: SymbolTableZipper, old: SymbolTableZipper) -> bool {
    &&& new.cursor == old.cursor
    &&& new.breadcrumb == old.breadcrumb
    &&& old.visited_symbols <= new.visited_symbols
}

/// How working out the type of a function body fails, as the program
/// tells it.
pub enum BodyTypeFailure {
    /// An expression of the body has no type.
    ExprValue,
    /// Two types that do not meet: the type of the values handed back so far
    /// and that of the next one, or the declared result type and the type of
    /// the body.
    Conflicting(DeepType, DeepType),
}

/// The zipper once the next variable of its scope is declared, if one is
/// left.
pub open spec fn declare_next(z: SymbolTableZipper) -> SymbolTableZipper {
    if z.visited_symbols < z.cursor.ordered_symbols@.len() {
        SymbolTableZipper {
            cursor: z.cursor,
            visited_symbols: (z.visited_symbols + 1) as usize,
            breadcrumb: z.breadcrumb,
        }
    } else {
        z
    }
}

/// The type that the values handed back by the statements `body`, from
/// position `i` on, meet in, starting from `acc` (none handed back yet), with
/// the zipper `z` at statement `i`: a variable declaration moves the zipper
/// on, an expression must have a type, a `return` meets its value's type
/// with the type so far.
pub open spec fn body_type_from(
    nodes: Seq<Node>,
    items: Seq<SymbolValueItem>,
    types: Seq<TypeSignatureValue>,
    z: SymbolTableZipper,
    body: Seq<NodeRef>,
    i: int,
    acc: Option<DeepType>,
) -> Result<Option<DeepType>, BodyTypeFailure>
    decreases body.len() - i,
{
    if i < 0 || i >= body.len() {
        Ok(acc)
    } else {
        match nodes[body[i] as int] {
            Node::Stmt(Stmt::VariableDecl(_), _) => body_type_from(nodes, items, types, declare_next(z), body, i + 1, acc),
            Node::Stmt(Stmt::Expression(x), _) => match expr_deep(nodes, items, types, z, x) {
                Some(_) => body_type_from(nodes, items, types, z, body, i + 1, acc),
                None => Err(BodyTypeFailure::ExprValue),
            },
            Node::Stmt(Stmt::Return(x), _) => match expr_deep(nodes, items, types, z, x) {
                Some(t) => match acc {
                    None => body_type_from(nodes, items, types, z, body, i + 1, Some(t)),
                    Some(a) => match coerce_shape(a, t) {
                        Some(c) => body_type_from(nodes, items, types, z, body, i + 1, Some(c)),
                        None => Err(BodyTypeFailure::Conflicting(a, t)),
                    },
                },
                None => Err(BodyTypeFailure::ExprValue),
            },
            _ => body_type_from(nodes, items, types, z, body, i + 1, acc),
        }
    }
}

/// The type of the function at node `func`, with the zipper `z` in its
/// scope: the type its body hands back (`Void` when it hands back nothing),
/// met with the declared result type when one is declared.
pub open spec fn func_body_type(
    nodes: Seq<Node>,
    items: Seq<SymbolValueItem>,
    types: Seq<TypeSignatureValue>,
    z: SymbolTableZipper,
    func: NodeRef,
) -> Result<DeepType, BodyTypeFailure> {
    let fun = nodes[func as int]->Function_0;
    match body_type_from(nodes, items, types, z, fun.body@, 0, None) {
        Err(e) => Err(e),
        Ok(acc) => {
            let t = match acc {
                Some(t) => t,
                None => DeepType::Builtin(BuiltinType::Void),
            };
            if types[fun.return_type.id as int]@ is TypeVariable {
                Ok(t)
            } else {
                let ret = deep(types, fun.return_type);
                match coerce_shape(t, ret) {
                    Some(c) => Ok(c),
                    None => Err(BodyTypeFailure::Conflicting(ret, t)),
                }
            }
        },
    }
}

/// A function's type is its body's type (`Void` when the body hands back
/// nothing) brought to the declared result type `R`: where the body's type
/// coerces to `R`, it is `R`; where only `R` coerces to the body's type, it
/// is the body's type; where neither coerces to the other, the two conflict.
/// Without a declared result type it is the body's type.
pub proof fn lemma_declared_result_type(
    nodes: Seq<Node>,
    items: Seq<SymbolValueItem>,
    types: Seq<TypeSignatureValue>,
    z: SymbolTableZipper,
    func: NodeRef,
    acc: Option<DeepType>,
)
    requires
        body_type_from(nodes, items, types, z, nodes[func as int]->Function_0.body@, 0, None) == Ok::<
            Option<DeepType>,
            BodyTypeFailure,
        >(acc),
    ensures
        ({
            let t = match acc {
                Some(t) => t,
                None => DeepType::Builtin(BuiltinType::Void),
            };
            let rt = nodes[func as int]->Function_0.return_type;
            let declared = deep(types, rt);
            let result = func_body_type(nodes, items, types, z, func);
            &&& types[rt.id as int]@ is TypeVariable ==> result == Ok::<DeepType, BodyTypeFailure>(t)
            &&& !(types[rt.id as int]@ is TypeVariable) && coerces_to(t, declared) ==> result == Ok::<DeepType, BodyTypeFailure>(
                declared,
            )
            &&& !(types[rt.id as int]@ is TypeVariable) && !coerces_to(t, declared) && coerces_to(declared, t) ==> result
                == Ok::<DeepType, BodyTypeFailure>(t)
            &&& !(types[rt.id as int]@ is TypeVariable) && !coerces_to(t, declared) && !coerces_to(declared, t) ==> result
                == Err::<DeepType, BodyTypeFailure>(BodyTypeFailure::Conflicting(declared, t))
        }),
{
}

/// The type of the body of the function at node `func`, with the zipper in
/// the function's scope: the values of its `return` statements must meet
/// one another, in order, and the type they meet in (`Void` without any)
/// must meet the declared result type, when one is declared. The
/// expressions of the body are evaluated as they come, variables being
/// declared in order.
#[verifier::loop_isolation(false)]
pub fn eval_func_body_type_sig(ctx: &mut IrCtx, symbols: &mut SymbolTableZipper, func: NodeRef) -> (r: Result<TypeSignature, FunctionTypeError>)
    requires
        old(ctx).wf(),
        zipper_ok(old(ctx).nodes@, arena_items(old(ctx).symbols), arena_ident(old(ctx).symbols), *old(symbols)),
        is_func(old(ctx).nodes@, func as int),
    ensures
        eval_post(final(ctx), old(ctx)),
        zipper_ok(final(ctx).nodes@, arena_items(final(ctx).symbols), arena_ident(final(ctx).symbols), *final(symbols)),
        zipper_moves(*final(symbols), *old(symbols)),
        r matches Ok(t) ==> final(ctx).types.contains(t),
        r matches Err(FunctionTypeError::ExprValue(f, _)) ==> f == func,
        r matches Err(FunctionTypeError::ConflictingReturnTypes(f, a, b)) ==> f == func && final(ctx).types.contains(a)
            && final(ctx).types.contains(b) && spec_coerce(final(ctx).types.types@, a, b) is None,
        !(r matches Err(FunctionTypeError::WrongNumberOfArgs { .. })),
        ({
            let outcome = func_body_type(old(ctx).nodes@, arena_items(old(ctx).symbols), old(ctx).types.types@, *old(symbols), func);
            &&& r matches Ok(t) ==> outcome == Ok::<DeepType, BodyTypeFailure>(deep(final(ctx).types.types@, t))
            &&& r matches Err(FunctionTypeError::ConflictingReturnTypes(_, a, b)) ==> outcome == Err::<DeepType, BodyTypeFailure>(
                BodyTypeFailure::Conflicting(deep(final(ctx).types.types@, a), deep(final(ctx).types.types@, b)))
            &&& r matches Err(FunctionTypeError::ExprValue(_, e)) ==> outcome == Err::<DeepType, BodyTypeFailure>(
                BodyTypeFailure::ExprValue)
        }),
{
    let ghost c0 = *ctx;
    let ghost z0 = *symbols;
    let ghost items = arena_items(c0.symbols);
    let ghost aid = arena_ident(c0.symbols);
    proof { assert(node_ok(ctx.nodes@, func as int, ctx.types.types@.len() as int)); }
    let (ret, body) = match &ctx.nodes[func] {
        Node::Function(fun, _) => (fun.return_type, crate::ir::text::copy_refs(&fun.body)),
        _ => { return unreached(); },
    };
    let ghost goal = body_type_from(c0.nodes@, items, c0.types.types@, z0, body@, 0, None);
    let mut acc: Option<TypeSignature> = None;
    let mut i: usize = 0;
    while i < body.len()
        invariant
            i <= body@.len(),
            forall|k: int| 0 <= k < body@.len() ==> #[trigger] body@[k] < func && crate::ir::node::is_stmt(c0.nodes@, body@[k] as int),
            ctx.wf(),
            eval_post(ctx, &c0),
            zipper_ok(ctx.nodes@, arena_items(ctx.symbols), arena_ident(ctx.symbols), *symbols),
            zipper_moves(*symbols, z0),
            acc matches Some(t) ==> ctx.types.contains(t),
            ret.id < ctx.types.types@.len(),
            items == arena_items(ctx.symbols),
            aid == arena_ident(ctx.symbols),
            body_type_from(c0.nodes@, items, c0.types.types@, *symbols, body@, i as int, acc_shape(ctx, acc)) == goal,
        decreases body@.len() - i,
    {
        let s = body[i];
        let ghost zi = *symbols;
        let ghost ai = acc_shape(ctx, acc);
        proof { assert(node_ok(ctx.nodes@, s as int, ctx.types.types@.len() as int)); }
        let (kind, x): (u8, NodeRef) = match &ctx.nodes[s] {
            Node::Stmt(Stmt::VariableDecl(_), _) => (0, 0),
            Node::Stmt(Stmt::Expression(x), _) => (1, *x),
            Node::Stmt(Stmt::Return(x), _) => (2, *x),
            _ => (3, 0),
        };
        if kind == 0 {
            if symbols.visited_symbols < symbols.cursor.ordered_symbols.len() {
                symbols.visit_next_symbol();
            }
            proof {
                assert(*symbols == declare_next(zi));
            }
        } else if kind == 1 || kind == 2 {
            let ghost c1 = *ctx;
            let t = match eval_type(ctx, symbols, x) {
                Ok(t) => t,
                Err(err) => {
                    proof {
                        lemma_eval_post_trans(ctx, &c1, &c0);
                        lemma_expr_deep_extends(c0.nodes@, items, aid, c1.types.types@, c0.types.types@, zi, x);
                    }
                    return Err(FunctionTypeError::ExprValue(func, Box::new(err)));
                },
            };
            proof {
                lemma_eval_post_trans(ctx, &c1, &c0);
                lemma_expr_deep_extends(c0.nodes@, items, aid, c1.types.types@, c0.types.types@, zi, x);
                lemma_acc_shape_extends(ctx, &c1, acc);
            }
            if kind == 2 {
                acc = match acc {
                    Some(a) => match coerce(a, t, &ctx.types) {
                        Some(c) => {
                            proof { lemma_coerce_by_shape(ctx.types.types@, a, t); }
                            Some(c)
                        },
                        None => {
                            proof { lemma_coerce_by_shape(ctx.types.types@, a, t); }
                            return Err(FunctionTypeError::ConflictingReturnTypes(func, a, t));
                        },
                    },
                    None => Some(t),
                };
            }
        }
        i = i + 1;
    }
    let ghost c3 = *ctx;
    let body_type = match acc {
        Some(t) => t,
        None => ctx.types.builtin(BuiltinType::Void),
    };
    proof {
        crate::ir::typed::lemma_deep_extends(ctx.types.types@, c0.types.types@, ret);
        assert(ctx.types.types@[ret.id as int]@ == c0.types.types@[ret.id as int]@);
    }
    let specified = match ctx.types.get(ret) {
        TypeSignatureValue::TypeVariable(_) => false,
        _ => true,
    };
    if specified {
        proof { lemma_coerce_by_shape(ctx.types.types@, body_type, ret); }
        match coerce(body_type, ret, &ctx.types) {
            Some(c) => Ok(c),
            None => {
                proof { lemma_coerce_symmetric_success(ctx.types.types@, body_type, ret); }
                Err(FunctionTypeError::ConflictingReturnTypes(func, ret, body_type))
            },
        }
    } else {
        Ok(body_type)
    }
}

/// The types gathered so far, as the types they stand for.
pub open spec fn acc_shape(ctx: &IrCtx, acc: Option<TypeSignature>) -> Option<DeepType> {
    match acc {
        Some(t) => Some(deep(ctx.types.types@, t)),
        None => None,
    }
}

proof fn lemma_acc_shape_extends(new: &IrCtx, old: &IrCtx, acc: Option<TypeSignature>)
    requires
        eval_post(new, old),
        acc matches Some(t) ==> old.types.contains(t),
    ensures
        acc_shape(new, acc) == acc_shape(old, acc),
{
    if let Some(t) = acc {
        crate::ir::typed::lemma_deep_extends(new.types.types@, old.types.types@, t);
    }
}
} // verus!
