use vstd::prelude::*;

use crate::ir::context::IrCtx;
use crate::ir::node::{is_expr, node_ok, nodes_wf, Expr, Ident, KeyView, Mutability, Node, NodeRef};
use crate::ir::typed::{
    attr_pos, deep, eval_post, eval_type, expr_deep, lemma_attr_pos_bound, lemma_expr_deep_extends,
    lemma_eval_post_trans, struct_decl_of, table_extends, DeepType,
};
use crate::ir::types::{TypeEvalError, TypeSignatureValue};
use crate::symbols::symbol_resolver::{find_attr, lookup_struct};
use crate::symbols::symbol_table::symbol_table_zipper::{zipper_lookup, zipper_ok, SymbolTableZipper};
use crate::symbols::symbol_table::{arena_ident, arena_items, get_symbol, symbol_item, SymbolValueItem};

use super::{AssignmentError, SymbolResolutionError, TypeCheckerError};

verus! {

/// What an assignment target is found to be.
pub enum LvalueCheck {
    /// A mutable variable, or a mutable attribute of an assignable value.
    Assignable,
    /// A name that refers to nothing.
    UnknownName,
    /// An immutable variable or attribute, with its name.
    Immutable(Seq<char>),
    /// Something that cannot be assigned to.
    NotLValue,
    /// An attribute read whose attribute cannot be found.
    NoType,
}

/// What the assignment target `expr` is found to be, with names looked up
/// at the zipper's position.
pub open spec fn lvalue_check(
    nodes: Seq<Node>,
    items: Seq<crate::symbols::symbol_table::SymbolValueItem>,
    types: Seq<TypeSignatureValue>,
    z: SymbolTableZipper,
    expr: NodeRef,
) -> LvalueCheck
    decreases expr,
{
    if !is_expr(nodes, expr as int) {
        LvalueCheck::NotLValue
    } else {
        match nodes[expr as int]->Expr_0 {
            Expr::Identifier(id) => match zipper_lookup(nodes, items, z, KeyView::Named(id.name@)) {
                None => LvalueCheck::UnknownName,
                Some(s) => match symbol_item(items, s) {
                    SymbolValueItem::VarDecl(v) => if nodes[v as int]->VarDecl_0.mutability == Mutability::Immutable {
                        LvalueCheck::Immutable(id.name@)
                    } else {
                        LvalueCheck::Assignable
                    },
                    _ => LvalueCheck::NotLValue,
                },
            },
            Expr::StructAccess { struct_expr, attr_name } => if struct_expr < expr {
                match expr_deep(nodes, items, types, z, struct_expr) {
                    Some(DeepType::Struct(n)) => match struct_decl_of(nodes, items, z, n) {
                        Some(d) => {
                            let attrs = nodes[d as int]->Struct_0.attrs@;
                            let k = attr_pos(attrs, attr_name.name@);
                            if k < 0 {
                                LvalueCheck::NoType
                            } else if attrs[k].mutability == Mutability::Immutable {
                                LvalueCheck::Immutable(attr_name.name@)
                            } else {
                                lvalue_check(nodes, items, types, z, struct_expr)
                            }
                        },
                        None => LvalueCheck::NoType,
                    },
                    _ => LvalueCheck::NoType,
                }
            } else {
                LvalueCheck::NotLValue
            },
            _ => LvalueCheck::NotLValue,
        }
    }
}

/// The check of an assignment target does not depend on types added later.
pub proof fn lemma_lvalue_check_extends(
    nodes: Seq<Node>,
    items: Seq<SymbolValueItem>,
    aid: u32,
    new: Seq<TypeSignatureValue>,
    old: Seq<TypeSignatureValue>,
    z: SymbolTableZipper,
    expr: NodeRef,
)
    requires
        table_extends(new, old),
        nodes_wf(nodes, old.len() as int),
        zipper_ok(nodes, items, aid, z),
    ensures
        lvalue_check(nodes, items, new, z, expr) == lvalue_check(nodes, items, old, z, expr),
    decreases expr,
{
    if is_expr(nodes, expr as int) {
        if let Expr::StructAccess { struct_expr, .. } = nodes[expr as int]->Expr_0 {
            if struct_expr < expr {
                lemma_expr_deep_extends(nodes, items, aid, new, old, z, struct_expr);
                lemma_lvalue_check_extends(nodes, items, aid, new, old, z, struct_expr);
            }
        }
    }
}

/// An attribute declared immutable cannot be assigned to, however its
/// object is written: where the target `expr` reads the attribute `a` of a
/// value of a struct that declares `a` immutable, the target is found
/// immutable under the attribute's name, and the assignment at `asg` is
/// refused with `ImmutableAssignment` naming it.
pub proof fn lemma_immutable_attribute_refused(
    nodes: Seq<Node>,
    items: Seq<SymbolValueItem>,
    types: Seq<TypeSignatureValue>,
    z: SymbolTableZipper,
    expr: NodeRef,
    asg: NodeRef,
    lhs: NodeRef,
    r: Result<(), TypeCheckerError>,
)
    requires
        is_expr(nodes, expr as int),
        nodes[expr as int]->Expr_0 matches Expr::StructAccess { struct_expr, attr_name } && struct_expr < expr
            && (expr_deep(nodes, items, types, z, struct_expr) matches Some(DeepType::Struct(n))
            && struct_decl_of(nodes, items, z, n) matches Some(d)
            && attr_pos(nodes[d as int]->Struct_0.attrs@, attr_name.name@) >= 0
            && nodes[d as int]->Struct_0.attrs@[attr_pos(nodes[d as int]->Struct_0.attrs@, attr_name.name@)].mutability
                == Mutability::Immutable),
    ensures
        lvalue_check(nodes, items, types, z, expr) == LvalueCheck::Immutable(
            nodes[expr as int]->Expr_0->StructAccess_attr_name.name@,
        ),
        lvalue_error(asg, lhs, lvalue_check(nodes, items, types, z, expr), r) ==> (r matches Err(
            TypeCheckerError::AssignmentError(a, AssignmentError::ImmutableAssignment(i)),
        ) && a == asg && i.name@ == nodes[expr as int]->Expr_0->StructAccess_attr_name.name@),
{
}

/// A variable can be assigned to exactly when it is declared mutable, and an
/// attribute declared mutable can be assigned to exactly when its object
/// can: the check goes down through every attribute read to the variable
/// at its root.
pub proof fn lemma_assignable_targets(
    nodes: Seq<Node>,
    items: Seq<SymbolValueItem>,
    types: Seq<TypeSignatureValue>,
    z: SymbolTableZipper,
    expr: NodeRef,
)
    requires
        is_expr(nodes, expr as int),
    ensures
        !(nodes[expr as int]->Expr_0 is Identifier || nodes[expr as int]->Expr_0 is StructAccess) ==> lvalue_check(nodes, items,
            types, z, expr) == LvalueCheck::NotLValue,
        nodes[expr as int]->Expr_0 matches Expr::Identifier(id) ==> (zipper_lookup(nodes, items, z, KeyView::Named(id.name@))
            is None ==> lvalue_check(nodes, items, types, z, expr) == LvalueCheck::UnknownName),
        nodes[expr as int]->Expr_0 matches Expr::Identifier(id) ==> (zipper_lookup(nodes, items, z, KeyView::Named(id.name@))
            matches Some(s) ==> (!(symbol_item(items, s) is VarDecl) ==> lvalue_check(nodes, items, types, z, expr)
            == LvalueCheck::NotLValue)),
        nodes[expr as int]->Expr_0 matches Expr::Identifier(id) ==> (zipper_lookup(nodes, items, z, KeyView::Named(id.name@))
            matches Some(s) ==> (symbol_item(items, s) matches SymbolValueItem::VarDecl(v) ==> lvalue_check(nodes, items, types, z,
            expr) == (if nodes[v as int]->VarDecl_0.mutability == Mutability::Immutable {
            LvalueCheck::Immutable(id.name@)
        } else {
            LvalueCheck::Assignable
        }))),
        nodes[expr as int]->Expr_0 matches Expr::StructAccess { struct_expr, attr_name } && struct_expr < expr && (expr_deep(
            nodes,
            items,
            types,
            z,
            struct_expr,
        ) matches Some(DeepType::Struct(n)) && struct_decl_of(nodes, items, z, n) matches Some(d) && attr_pos(
            nodes[d as int]->Struct_0.attrs@,
            attr_name.name@,
        ) >= 0 && nodes[d as int]->Struct_0.attrs@[attr_pos(nodes[d as int]->Struct_0.attrs@, attr_name.name@)].mutability
            == Mutability::Mutable) ==> lvalue_check(nodes, items, types, z, expr) == lvalue_check(nodes, items, types, z,
            nodes[expr as int]->Expr_0->StructAccess_struct_expr),
{
}

/// How an assignment at node `asg` with target `lhs` is answered: it goes
/// through when the target is assignable; an immutable variable or
/// attribute is refused naming it; a target that is neither a variable nor
/// an attribute read is refused naming the whole target.
pub proof fn lemma_assignment_answer(asg: NodeRef, lhs: NodeRef, c: LvalueCheck, r: Result<(), TypeCheckerError>)
    requires
        lvalue_error(asg, lhs, c, r),
    ensures
        r is Ok <==> c is Assignable,
        c matches LvalueCheck::Immutable(n) ==> (r matches Err(TypeCheckerError::AssignmentError(a, AssignmentError::ImmutableAssignment(i)))
            && a == asg && i.name@ == n),
        c is NotLValue ==> r == Err::<(), TypeCheckerError>(TypeCheckerError::AssignmentError(asg, AssignmentError::NotLValue(lhs))),
{
}

/// The error that an assignment at node `asg` with target `lhs` is
/// answered with when its target is found to be `c`.
pub open spec fn lvalue_error(asg: NodeRef, lhs: NodeRef, c: LvalueCheck, r: Result<(), TypeCheckerError>) -> bool {
    match c {
        LvalueCheck::Assignable => r is Ok,
        LvalueCheck::UnknownName => r matches Err(TypeCheckerError::SymbolResolutionError(
            SymbolResolutionError::TypeEval(TypeEvalError::UnknownIdent(_)))),
        LvalueCheck::Immutable(n) => r matches Err(TypeCheckerError::AssignmentError(a, AssignmentError::ImmutableAssignment(i)))
            && a == asg && i.name@ == n,
        LvalueCheck::NotLValue => r matches Err(TypeCheckerError::AssignmentError(a, AssignmentError::NotLValue(l)))
            && a == asg && l == lhs,
        LvalueCheck::NoType => r matches Err(TypeCheckerError::TypeEval(_)),
    }
}

/// Checks that `expr`, the target (or part of the target `lhs`) of the
/// assignment at node `asg`, can be assigned to: a mutable variable, or a
/// mutable attribute of something that can be assigned to.
pub fn check_assignment_expr(ctx: &mut IrCtx, symbols: &SymbolTableZipper, asg: NodeRef, lhs: NodeRef, expr: NodeRef) -> (r: Result<(), TypeCheckerError>)
    requires
        old(ctx).wf(),
        zipper_ok(old(ctx).nodes@, arena_items(old(ctx).symbols), arena_ident(old(ctx).symbols), *symbols),
    ensures
        eval_post(final(ctx), old(ctx)),
        lvalue_error(asg, lhs,
            lvalue_check(old(ctx).nodes@, arena_items(old(ctx).symbols), old(ctx).types.types@, *symbols, expr), r),
    decreases expr,
{
    let ghost c0 = *ctx;
    proof { crate::ir::ir_walker::lemma_nodes_compat_refl(ctx.nodes@); }
    if expr >= ctx.nodes.len() {
        return Err(TypeCheckerError::AssignmentError(asg, AssignmentError::NotLValue(lhs)));
    }
    proof { assert(node_ok(ctx.nodes@, expr as int, ctx.types.types@.len() as int)); }
    let kind: u8 = match &ctx.nodes[expr] {
        Node::Expr(Expr::Identifier(_), _) => 0,
        Node::Expr(Expr::StructAccess { .. }, _) => 1,
        _ => 2,
    };
    if kind == 0 {
        let id = match &ctx.nodes[expr] {
            Node::Expr(Expr::Identifier(id), _) => id.copy(),
            _ => { return unreached(); },
        };
        let key = id.key();
        let sym = match symbols.lookup(ctx, &key) {
            Some(s) => s,
            None => {
                return Err(TypeCheckerError::SymbolResolutionError(SymbolResolutionError::TypeEval(TypeEvalError::UnknownIdent(id))));
            },
        };
        let item = match get_symbol(&ctx.symbols, sym.id) {
            Some(it) => it,
            None => { return unreached(); },
        };
        match item {
            SymbolValueItem::VarDecl(v) => {
                let m = match &ctx.nodes[v] {
                    Node::VarDecl(d) => d.mutability,
                    _ => { return unreached(); },
                };
                if m == Mutability::Immutable {
                    Err(TypeCheckerError::AssignmentError(asg, AssignmentError::ImmutableAssignment(id)))
                } else {
                    Ok(())
                }
            },
            _ => Err(TypeCheckerError::AssignmentError(asg, AssignmentError::NotLValue(lhs))),
        }
    } else if kind == 1 {
        let (struct_expr, attr_name) = match &ctx.nodes[expr] {
            Node::Expr(Expr::StructAccess { struct_expr, attr_name }, _) => (*struct_expr, attr_name.copy()),
            _ => { return unreached(); },
        };
        let ts = match eval_type(ctx, symbols, struct_expr) {
            Ok(t) => t,
            Err(err) => { return Err(TypeCheckerError::TypeEval(err)); },
        };
        let ghost c1 = *ctx;
        let name = match ctx.types.get(ts) {
            TypeSignatureValue::Struct { name } => crate::ir::text::copy_chars(name),
            _ => { return Err(TypeCheckerError::TypeEval(TypeEvalError::AccessNonStruct(ts))); },
        };
        proof { assert(deep(ctx.types.types@, ts) == DeepType::Struct(name@)); }
        let d = match lookup_struct(ctx, symbols, &name) {
            Some(d) => d,
            None => { return Err(TypeCheckerError::TypeEval(TypeEvalError::UnknownIdent(attr_name))); },
        };
        let k = match find_attr(ctx, d, &attr_name.name) {
            Some(k) => k,
            None => { return Err(TypeCheckerError::TypeEval(TypeEvalError::UnknownIdent(attr_name))); },
        };
        let m = match &ctx.nodes[d] {
            Node::Struct(st) => st.attrs[k].mutability,
            _ => { return unreached(); },
        };
        if m == Mutability::Immutable {
            return Err(TypeCheckerError::AssignmentError(asg, AssignmentError::ImmutableAssignment(attr_name)));
        }
        proof {
            lemma_lvalue_check_extends(c0.nodes@, arena_items(c0.symbols), arena_ident(c0.symbols), c1.types.types@, c0.types.types@, *symbols, struct_expr);
        }
        let r = check_assignment_expr(ctx, symbols, asg, lhs, struct_expr);
        proof { lemma_eval_post_trans(ctx, &c1, &c0); }
        r
    } else {
        Err(TypeCheckerError::AssignmentError(asg, AssignmentError::NotLValue(lhs)))
    }
}

/// Checks that the target of the assignment at node `asg` can be assigned
/// to: a mutable variable, or a mutable attribute of something that can be
/// assigned to.
pub fn check_assignment(ctx: &mut IrCtx, symbols: &SymbolTableZipper, asg: NodeRef) -> (r: Result<(), TypeCheckerError>)
    requires
        old(ctx).wf(),
        zipper_ok(old(ctx).nodes@, arena_items(old(ctx).symbols), arena_ident(old(ctx).symbols), *symbols),
        is_expr(old(ctx).nodes@, asg as int),
        old(ctx).nodes@[asg as int]->Expr_0 is Assignment,
    ensures
        eval_post(final(ctx), old(ctx)),
        ({
            let lhs = old(ctx).nodes@[asg as int]->Expr_0->Assignment_lhs;
            lvalue_error(asg, lhs,
                lvalue_check(old(ctx).nodes@, arena_items(old(ctx).symbols), old(ctx).types.types@, *symbols, lhs), r)
        }),
{
    let lhs = match &ctx.nodes[asg] {
        Node::Expr(Expr::Assignment { lhs, .. }, _) => *lhs,
        _ => { return unreached(); },
    };
    check_assignment_expr(ctx, symbols, asg, lhs, lhs)
}

} // verus!
