use vstd::prelude::*;
use std::collections::VecDeque;

use super::context::{IrCtx, TypeTable};
use super::node::{
    is_enum, is_expr, is_func, is_stmt, is_struct, is_var, node_ok, same_kind, Expr, IdentKey, KeyView, Node, NodeRef, Stmt,
    StructInitValue,
};
use super::text::copy_refs;
use crate::symbols::symbol_table::symbol_table_zipper::{
    entered, exited, key_pos, zipper_ok, SymbolTableZipper, SymbolTableZipperBreadcrumb,
};
use crate::symbols::symbol_table::{
    arena_ident, arena_items, has_key, item_key, item_ok, symbol_ok, table_ok, SymbolCollectionError, SymbolTable, SymbolValue,
    SymbolValueItem,
};
use crate::symbols::symbol_resolver::{
    lemma_resolve_post_trans, resolve_enum_init, resolve_enum_types, resolve_expr_type, resolve_function_types,
    resolve_ident, resolve_member_access, resolve_post, resolve_struct_init, resolve_struct_types, resolve_var_type, settle_var_type,
};
use crate::type_checker::{SymbolResolutionError, TypeCheckerError, TypeConstraint, UndeterminableType};
use super::types::TypeSignature;
use crate::type_checker::check_assignment::check_assignment;
use crate::type_checker::type_inference::{infer_expr, infer_function_body, infer_struct, infer_var_decl};
use crate::type_checker::type_resolver::{apply_expr, apply_function, apply_struct, apply_var};
use crate::type_checker::check_enum::check_enum_init;
use crate::type_checker::check_expr_ident::check_expr_ident;
use crate::type_checker::check_struct::check_struct_init;

verus! {

/// The passes that walk a program with its symbol table.
#[derive(Debug, Clone, Copy, PartialEq, Eq, Structural)]
pub enum Pass {
    /// Resolve names and type names, and member accesses.
    ResolveSymbols,
    /// Gather type constraints.
    InferTypes,
    /// Apply the inferred substitutions to the declared types, and resolve
    /// member accesses without an object.
    ResolveTypes,
    /// Check assignments, struct and enum initializations and names.
    CheckTypes,
}

/// The state of a walk: the pass, the position in the symbol table, the
/// gathered constraints, and the variables whose values are being walked.
#[derive(Debug)]
pub struct WalkState {
    pub pass: Pass,
    pub symbols: SymbolTableZipper,
    pub constraints: VecDeque<TypeConstraint>,
    pub defining: Vec<NodeRef>,
    /// Inferred types of type variables: the first entry of a variable counts.
    pub substitutions: std::collections::HashMap<usize, TypeSignature>,
    /// Whether types were learned that call for another round.
    pub needs_rerun: bool,
    /// Places whose types could not be worked out in this round.
    pub undeterminable: Vec<UndeterminableType>,
    /// Places whose types could not be worked out in the previous round.
    pub previous_undeterminable: Vec<UndeterminableType>,
}

/// A symbol table seen as plain values.
pub struct TableView {
    pub globals: Seq<(KeyView, SymbolValue)>,
    pub ordered: Seq<SymbolValue>,
    pub scopes: Seq<(KeyView, TableView)>,
}

/// The plain value of a symbol table.
pub open spec fn table_view(t: SymbolTable) -> TableView
    decreases t,
{
    TableView {
        globals: Seq::new(t.scope_global_table@.len(), |i: int| (t.scope_global_table@[i].0@, t.scope_global_table@[i].1)),
        ordered: t.ordered_symbols@,
        scopes: Seq::new(
            t.scopes@.len(),
            |i: int|
                if 0 <= i < t.scopes@.len() {
                    (t.scopes@[i].0@, table_view(t.scopes@[i].1))
                } else {
                    (KeyView::Anonymous(0), TableView { globals: Seq::empty(), ordered: Seq::empty(), scopes: Seq::empty() })
                },
        ),
    }
}

/// The whole table that a cursor with view `cur` lies in, after the scopes
/// `crumbs` were entered to reach it: each scope put back into its parent,
/// at the position it was taken from.
pub open spec fn rooted(cur: TableView, crumbs: Seq<SymbolTableZipperBreadcrumb>) -> TableView
    decreases crumbs.len(),
{
    if crumbs.len() == 0 {
        cur
    } else {
        let c = crumbs.last();
        let p = table_view(c.sym_table);
        rooted(
            TableView { globals: p.globals, ordered: p.ordered, scopes: p.scopes.insert(c.position as int, (c.scope_name@, cur)) },
            crumbs.drop_last(),
        )
    }
}

/// Leaving a scope keeps the whole table that the zipper lies in.
pub proof fn lemma_exit_keeps_root(o: SymbolTableZipper, n: SymbolTableZipper)
    requires
        exited(o, n),
        o.breadcrumb@.last().position <= o.breadcrumb@.last().sym_table.scopes@.len(),
    ensures
        rooted(table_view(n.cursor), n.breadcrumb@) == rooted(table_view(o.cursor), o.breadcrumb@),
{
    let c = o.breadcrumb@.last();
    let i = c.position as int;
    let p = table_view(c.sym_table);
    let v = TableView { globals: p.globals, ordered: p.ordered, scopes: p.scopes.insert(i, (c.scope_name@, table_view(o.cursor))) };
    let vn = table_view(n.cursor);
    assert(vn.globals =~= v.globals);
    assert(vn.ordered =~= v.ordered);
    assert forall|j: int| 0 <= j < vn.scopes.len() implies vn.scopes[j] == v.scopes[j] by {
        if j < i {
            assert(n.cursor.scopes@[j] == c.sym_table.scopes@[j]);
        } else if j > i {
            assert(n.cursor.scopes@[j] == c.sym_table.scopes@[j - 1]);
        }
    }
    assert(vn.scopes =~= v.scopes);
}

/// Node `a` is of the kind of `b`, with as many arguments, attributes and
/// values.
pub open spec fn node_compat(a: Node, b: Node) -> bool {
    &&& same_kind(b, a)
    &&& match (a, b) {
        (Node::Function(f, _), Node::Function(g, _)) => f.args@.len() == g.args@.len(),
        (Node::Struct(s), Node::Struct(t)) => s.attrs@.len() == t.attrs@.len(),
        (Node::Enum(x), Node::Enum(y)) => x.values@.len() == y.values@.len(),
        _ => true,
    }
}

/// Every node of `new` is compatible with the node of `old` at its place.
pub open spec fn nodes_compat(new: Seq<Node>, old: Seq<Node>) -> bool {
    &&& new.len() == old.len()
    &&& forall|i: int| 0 <= i < old.len() ==> #[trigger] node_compat(new[i], old[i])
}

/// The walk's invariant: a well formed program, a zipper over valid
/// symbols, and variables being defined that are variable nodes.
pub open spec fn walk_ok(st: &WalkState, ctx: &IrCtx) -> bool {
    &&& ctx.wf()
    &&& zipper_ok(ctx.nodes@, arena_items(ctx.symbols), arena_ident(ctx.symbols), st.symbols)
    &&& forall|i: int| 0 <= i < st.defining@.len() ==> is_var(ctx.nodes@, #[trigger] st.defining@[i] as int)
    &&& crate::type_checker::type_inference::subst_ok(ctx.types.types@, st.substitutions@)
    &&& crate::type_checker::type_inference::constraints_in(st.constraints@, ctx.types.types@.len() as int)
}

/// A substitution of a table stays one when the table grows.
pub proof fn lemma_subst_ok_extends(new: &IrCtx, old: &IrCtx, s: Map<usize, TypeSignature>)
    requires
        crate::type_checker::type_inference::subst_ok(old.types.types@, s),
        TypeTable::extends(new.types, old.types),
    ensures
        crate::type_checker::type_inference::subst_ok(new.types.types@, s),
{
    assert forall|k: usize| #[trigger] s.contains_key(k) implies k < new.types.types@.len() && s[k].id < new.types.types@.len()
        && new.types.types@[k as int]@ is TypeVariable by {
        assert(new.types.types@[k as int]@ == old.types.types@[k as int]@);
    }
}

/// Constraints over a table stay over it when the table grows.
pub proof fn lemma_constraints_in_grow(cs: Seq<TypeConstraint>, a: int, b: int)
    requires
        crate::type_checker::type_inference::constraints_in(cs, a),
        a <= b,
    ensures
        crate::type_checker::type_inference::constraints_in(cs, b),
{
}

/// What a walk keeps: compatible nodes, a table that only grows, the same
/// symbols, pass and variables being defined.
pub open spec fn walk_keeps(new_st: &WalkState, new_ctx: &IrCtx, old_st: &WalkState, old_ctx: &IrCtx) -> bool {
    &&& nodes_compat(new_ctx.nodes@, old_ctx.nodes@)
    &&& TypeTable::extends(new_ctx.types, old_ctx.types)
    &&& arena_items(new_ctx.symbols) == arena_items(old_ctx.symbols)
    &&& arena_ident(new_ctx.symbols) == arena_ident(old_ctx.symbols)
    &&& new_st.pass == old_st.pass
    &&& new_st.defining@ == old_st.defining@
}

/// The zipper is at the same scope, over the same tables.
pub open spec fn same_scope(a: SymbolTableZipper, b: SymbolTableZipper) -> bool {
    &&& table_view(a.cursor) == table_view(b.cursor)
    &&& a.breadcrumb@ == b.breadcrumb@
}

/// The errors that a pass reports: symbol resolution reports its own
/// errors, and mismatches between the program and its symbol table.
pub open spec fn pass_error(pass: Pass, e: TypeCheckerError) -> bool {
    pass == Pass::ResolveSymbols ==> (e is SymbolResolutionError || e is Scope)
}

pub proof fn lemma_item_ok_compat(new: Seq<Node>, old: Seq<Node>, item: SymbolValueItem)
    requires
        nodes_compat(new, old),
        item_ok(old, item),
    ensures
        item_ok(new, item),
{
    let r: int = match item {
        SymbolValueItem::BuiltinType(_) => 0,
        SymbolValueItem::VarDecl(v) => v as int,
        SymbolValueItem::FuncDecl(f) => f as int,
        SymbolValueItem::FuncArg(f, _) => f as int,
        SymbolValueItem::StructDecl(s) => s as int,
        SymbolValueItem::StructAttr(s, _) => s as int,
        SymbolValueItem::StructInit(e) => e as int,
        SymbolValueItem::EnumDecl(d) => d as int,
        SymbolValueItem::EnumValue(d, _) => d as int,
    };
    if !(item is BuiltinType) {
        assert(node_compat(new[r], old[r]));
    }
}

pub proof fn lemma_table_ok_compat(new: Seq<Node>, old: Seq<Node>, items: Seq<SymbolValueItem>, aid: u32, t: SymbolTable)
    requires
        nodes_compat(new, old),
        table_ok(old, items, aid, t),
    ensures
        table_ok(new, items, aid, t),
    decreases t,
{
    assert forall|i: int| 0 <= i < t.scope_global_table@.len() implies symbol_ok(new, items, aid, (#[trigger] t.scope_global_table@[i]).1) by {
        let s = t.scope_global_table@[i].1;
        assert(symbol_ok(old, items, aid, s));
        lemma_item_ok_compat(new, old, items[crate::symbols::symbol_table::id_index(s.id) as int]);
    }
    assert forall|i: int| 0 <= i < t.ordered_symbols@.len() implies symbol_ok(new, items, aid, #[trigger] t.ordered_symbols@[i]) by {
        let s = t.ordered_symbols@[i];
        assert(symbol_ok(old, items, aid, s));
        lemma_item_ok_compat(new, old, items[crate::symbols::symbol_table::id_index(s.id) as int]);
    }
    assert forall|i: int| 0 <= i < t.scopes@.len() implies table_ok(new, items, aid, (#[trigger] t.scopes@[i]).1) by {
        lemma_table_ok_compat(new, old, items, aid, t.scopes@[i].1);
    }
}

/// A zipper over valid symbols stays valid when the nodes change compatibly.
pub proof fn lemma_zipper_ok_compat(new: Seq<Node>, old: Seq<Node>, items: Seq<SymbolValueItem>, aid: u32, z: SymbolTableZipper)
    requires
        nodes_compat(new, old),
        zipper_ok(old, items, aid, z),
    ensures
        zipper_ok(new, items, aid, z),
{
    lemma_table_ok_compat(new, old, items, aid, z.cursor);
    assert forall|i: int| 0 <= i < z.breadcrumb@.len() implies {
        let c = #[trigger] z.breadcrumb@[i];
        &&& table_ok(new, items, aid, c.sym_table)
        &&& c.visited_symbols <= c.sym_table.ordered_symbols@.len()
        &&& c.position <= c.sym_table.scopes@.len()
    } by {
        lemma_table_ok_compat(new, old, items, aid, z.breadcrumb@[i].sym_table);
    }
}

pub proof fn lemma_nodes_compat_refl(n: Seq<Node>)
    ensures
        nodes_compat(n, n),
{
    assert forall|i: int| 0 <= i < n.len() implies #[trigger] node_compat(n[i], n[i]) by {
        crate::ir::node::reveal_same_kind(n[i]);
    }
}

pub proof fn lemma_nodes_compat_trans(c: Seq<Node>, b: Seq<Node>, a: Seq<Node>)
    requires
        nodes_compat(c, b),
        nodes_compat(b, a),
    ensures
        nodes_compat(c, a),
{
    assert forall|i: int| 0 <= i < a.len() implies #[trigger] node_compat(c[i], a[i]) by {
        assert(node_compat(c[i], b[i]));
        assert(node_compat(b[i], a[i]));
    }
}

pub proof fn lemma_walk_keeps_trans(c_st: &WalkState, c: &IrCtx, b_st: &WalkState, b: &IrCtx, a_st: &WalkState, a: &IrCtx)
    requires
        walk_keeps(c_st, c, b_st, b),
        walk_keeps(b_st, b, a_st, a),
    ensures
        walk_keeps(c_st, c, a_st, a),
{
    lemma_nodes_compat_trans(c.nodes@, b.nodes@, a.nodes@);
    assert forall|i: int| 0 <= i < a.types.types@.len() implies #[trigger] c.types.types@[i]@ == a.types.types@[i]@ by {
        assert(c.types.types@[i]@ == b.types.types@[i]@);
    }
}

/// Entering a scope and leaving it again, whatever the walk in between did
/// at the inner level, brings the zipper back to the same scope.
pub proof fn lemma_enter_exit_same_scope(
    z0: SymbolTableZipper,
    k: KeyView,
    z1: SymbolTableZipper,
    z1b: SymbolTableZipper,
    z2: SymbolTableZipper,
)
    requires
        entered(z0, k, z1),
        same_scope(z1b, z1),
        exited(z1b, z2),
    ensures
        same_scope(z2, z0),
{
    let i = key_pos(z0.cursor.scopes@, k);
    let c = z1b.breadcrumb@.last();
    assert(c == z1.breadcrumb@.last());
    let v0 = table_view(z0.cursor);
    let v2 = table_view(z2.cursor);
    assert(v2.globals =~= v0.globals);
    assert(v2.ordered =~= v0.ordered);
    assert(z2.cursor.scopes@ == z0.cursor.scopes@.remove(i).insert(i, (c.scope_name, z1b.cursor)));
    assert(table_view(z1b.cursor) == table_view(z0.cursor.scopes@[i].1));
    assert forall|j: int| 0 <= j < v0.scopes.len() implies v2.scopes[j] == v0.scopes[j] by {
        if j < i {
            assert(z2.cursor.scopes@[j] == z0.cursor.scopes@[j]);
        } else if j > i {
            assert(z2.cursor.scopes@[j] == z0.cursor.scopes@[j]);
        } else {
            assert(z2.cursor.scopes@[j].0 == z0.cursor.scopes@[j].0);
        }
    }
    assert(v2.scopes =~= v0.scopes);
}

/// Compatible nodes are of the same kinds.
pub proof fn lemma_kinds_compat(new: Seq<Node>, old: Seq<Node>, r: int)
    requires
        nodes_compat(new, old),
    ensures
        is_expr(new, r) == is_expr(old, r),
        is_stmt(new, r) == is_stmt(old, r),
        is_var(new, r) == is_var(old, r),
        is_func(new, r) == is_func(old, r),
        is_struct(new, r) == is_struct(old, r),
        is_enum(new, r) == is_enum(old, r),
{
    if 0 <= r < old.len() {
        assert(node_compat(new[r], old[r]));
    }
}

/// What a hook keeps: the walk's invariant, and the zipper where it was.
pub open spec fn hook_post(new_st: &WalkState, new_ctx: &IrCtx, old_st: &WalkState, old_ctx: &IrCtx) -> bool {
    &&& walk_ok(new_st, new_ctx)
    &&& walk_keeps(new_st, new_ctx, old_st, old_ctx)
    &&& new_st.symbols == old_st.symbols
}

/// What a walk keeps: the walk's invariant, and, when it succeeds, the
/// zipper at the same scope.
pub open spec fn walk_post(r: Result<(), TypeCheckerError>, new_st: &WalkState, new_ctx: &IrCtx, old_st: &WalkState, old_ctx: &IrCtx) -> bool {
    &&& walk_ok(new_st, new_ctx)
    &&& walk_keeps(new_st, new_ctx, old_st, old_ctx)
    &&& r is Ok ==> same_scope(new_st.symbols, old_st.symbols)
}

pub proof fn lemma_walk_post_trans(
    r: Result<(), TypeCheckerError>,
    c_st: &WalkState,
    c: &IrCtx,
    b_st: &WalkState,
    b: &IrCtx,
    a_st: &WalkState,
    a: &IrCtx,
)
    requires
        walk_post(r, c_st, c, b_st, b),
        walk_post(Ok(()), b_st, b, a_st, a),
    ensures
        walk_post(r, c_st, c, a_st, a),
{
    lemma_walk_keeps_trans(c_st, c, b_st, b, a_st, a);
}

pub proof fn lemma_walk_post_refl(st: &WalkState, ctx: &IrCtx)
    requires
        walk_ok(st, ctx),
    ensures
        walk_post(Ok(()), st, ctx, st, ctx),
{
    lemma_nodes_compat_refl(ctx.nodes@);
}

/// A successful step's result is the one `Ok` there is.
pub proof fn lemma_ok_unit(r: Result<(), TypeCheckerError>)
    requires
        r is Ok,
    ensures
        r == Ok::<(), TypeCheckerError>(()),
{
    match r {
        Ok(u) => {
            let () = u;
        },
        Err(_) => {},
    }
}

/// A state between two steps of a walk.
pub open spec fn walk_step(ms: WalkState, mc: IrCtx, r1: Result<(), TypeCheckerError>) -> bool {
    true
}

/// A step that failed: the walk stops where the step left it.
pub open spec fn stopped(ms: WalkState, mc: IrCtx, r1: Result<(), TypeCheckerError>, ns: WalkState, nc: IrCtx, r: Result<(), TypeCheckerError>) -> bool {
    r1 is Err && ns == ms && nc == mc && r == r1
}

/// Nothing happens, and the walk succeeds.
pub open spec fn unmoved(os: WalkState, oc: IrCtx, ns: WalkState, nc: IrCtx, r: Result<(), TypeCheckerError>) -> bool {
    ns == os && nc == oc && r is Ok
}

/// `s1` is `os` moved into the scope filed under `k`.
pub open spec fn entered_state(os: WalkState, k: KeyView, s1: WalkState) -> bool {
    entered(os.symbols, k, s1.symbols) && s1 == (WalkState { symbols: s1.symbols, ..os })
}

/// `ns` is `hs` moved back out of its scope.
pub open spec fn exited_state(hs: WalkState, ns: WalkState) -> bool {
    exited(hs.symbols, ns.symbols) && ns == (WalkState { symbols: ns.symbols, ..hs })
}

/// Entering the scope filed under `k` failed: nothing changes.
pub open spec fn enter_failed(os: WalkState, oc: IrCtx, k: KeyView, ns: WalkState, nc: IrCtx, r: Result<(), TypeCheckerError>) -> bool {
    &&& ns == os
    &&& nc == oc
    &&& r matches Err(TypeCheckerError::Scope(SymbolCollectionError::ScopeNotFound(x))) && x@ == k
}

/// `s1` is `os` with the next variable of the scope marked as declared and
/// `v` being defined.
pub open spec fn declaring(os: WalkState, v: NodeRef, s1: WalkState) -> bool {
    &&& s1.symbols == (SymbolTableZipper { visited_symbols: (os.symbols.visited_symbols + 1) as usize, ..os.symbols })
    &&& s1.defining@ == os.defining@.push(v)
    &&& s1 == (WalkState { symbols: s1.symbols, defining: s1.defining, ..os })
}

/// `ps` is `ms` with the definitions in progress back to those of `os`.
pub open spec fn undeclared(ms: WalkState, os: WalkState, ps: WalkState) -> bool {
    ps.defining@ == os.defining@ && ps == (WalkState { defining: ps.defining, ..ms })
}

/// The walk of expression `e` from `(os, oc)` can end in `(ns, nc)` with
/// result `r`: its parts, then, when they succeed, its hook.
pub open spec fn expr_walked(os: WalkState, oc: IrCtx, e: NodeRef, ns: WalkState, nc: IrCtx, r: Result<(), TypeCheckerError>) -> bool
    decreases e, 2nat, 0nat,
{
    exists|ms: WalkState, mc: IrCtx, r1: Result<(), TypeCheckerError>|
        #![trigger walk_step(ms, mc, r1)]
        parts_walked(os, oc, e, ms, mc, r1)
        && (stopped(ms, mc, r1, ns, nc, r) || (r1 is Ok && hook_expr_post(&ns, &nc, &ms, &mc, e, r)))
}

/// Two walks, the second only when the first succeeds.
pub open spec fn exprs_walked(os: WalkState, oc: IrCtx, es: Seq<NodeRef>, bound: NodeRef, ns: WalkState, nc: IrCtx, r: Result<(), TypeCheckerError>) -> bool
    decreases bound, 0nat, es.len(),
{
    if es.len() == 0 {
        unmoved(os, oc, ns, nc, r)
    } else {
        exists|ms: WalkState, mc: IrCtx, r1: Result<(), TypeCheckerError>|
            #![trigger walk_step(ms, mc, r1)]
            exprs_walked(os, oc, es.drop_last(), bound, ms, mc, r1)
            && (stopped(ms, mc, r1, ns, nc, r) || (r1 is Ok && if es.last() < bound {
                expr_walked(ms, mc, es.last(), ns, nc, r)
            } else {
                false
            }))
    }
}

/// The walk of `x` and then, when it succeeds, of the expressions `es`.
pub open spec fn expr_then_exprs(os: WalkState, oc: IrCtx, x: NodeRef, es: Seq<NodeRef>, bound: NodeRef, ns: WalkState, nc: IrCtx, r: Result<(), TypeCheckerError>) -> bool
    decreases bound, 0nat, es.len() + 1,
{
    if x < bound {
        exists|ms: WalkState, mc: IrCtx, r1: Result<(), TypeCheckerError>|
            #![trigger walk_step(ms, mc, r1)]
            expr_walked(os, oc, x, ms, mc, r1)
            && (stopped(ms, mc, r1, ns, nc, r) || (r1 is Ok && exprs_walked(ms, mc, es, bound, ns, nc, r)))
    } else {
        false
    }
}

/// The walk of expressions `es` in a scope of their own, filed under `k`.
pub open spec fn scoped_exprs_walked(os: WalkState, oc: IrCtx, k: KeyView, es: Seq<NodeRef>, bound: NodeRef, ns: WalkState, nc: IrCtx, r: Result<(), TypeCheckerError>) -> bool
    decreases bound, 0nat, es.len() + 1,
{
    if !has_key(os.symbols.cursor.scopes@, k) {
        enter_failed(os, oc, k, ns, nc, r)
    } else {
        exists|s1: WalkState, ms: WalkState, mc: IrCtx, r1: Result<(), TypeCheckerError>|
            #![trigger entered_state(os, k, s1), walk_step(ms, mc, r1)]
            entered_state(os, k, s1) && exprs_walked(s1, oc, es, bound, ms, mc, r1)
            && (stopped(ms, mc, r1, ns, nc, r) || (r1 is Ok && nc == mc && r is Ok && exited_state(ms, ns)))
    }
}

/// The walk of the parts of expression `e`: the expressions in it and the
/// scopes it opens.
pub open spec fn parts_walked(os: WalkState, oc: IrCtx, e: NodeRef, ns: WalkState, nc: IrCtx, r: Result<(), TypeCheckerError>) -> bool
    decreases e, 1nat, 0nat,
{
    match oc.nodes@[e as int] {
        Node::Expr(ex, _) => match ex {
            Expr::Tuple(items) => exprs_walked(os, oc, items@, e, ns, nc, r),
            Expr::EnumInit { items, .. } => exprs_walked(os, oc, items@, e, ns, nc, r),
            Expr::TupleAccess { tuple_expr, .. } => if tuple_expr < e { expr_walked(os, oc, tuple_expr, ns, nc, r) } else { false },
            Expr::StructAccess { struct_expr, .. } => if struct_expr < e { expr_walked(os, oc, struct_expr, ns, nc, r) } else { false },
            Expr::FunctionCall { func, params } => expr_then_exprs(os, oc, func, params@, e, ns, nc, r),
            Expr::MethodCall { struct_expr, params, .. } => expr_then_exprs(os, oc, struct_expr, params@, e, ns, nc, r),
            Expr::Function(f) => if f < e { function_walked(os, oc, f, ns, nc, r) } else { false },
            Expr::StructInit { values, .. } => scoped_exprs_walked(
                os, oc, IdentKey::Anonymous(e)@, values@.map_values(|x: StructInitValue| x.value), e, ns, nc, r),
            Expr::UnresolvedMemberAccess { object, items, .. } => {
                let its = match items { Some(v) => v@, None => Seq::empty() };
                match object {
                    Some(o) => expr_then_exprs(os, oc, o, its, e, ns, nc, r),
                    None => exprs_walked(os, oc, its, e, ns, nc, r),
                }
            },
            Expr::Assignment { lhs, rhs } => expr_then_exprs(os, oc, lhs, seq![rhs], e, ns, nc, r),
            _ => unmoved(os, oc, ns, nc, r),
        },
        _ => false,
    }
}

/// The walk of the function at node `f`: its body in its own scope, then
/// its hook.
pub open spec fn function_walked(os: WalkState, oc: IrCtx, f: NodeRef, ns: WalkState, nc: IrCtx, r: Result<(), TypeCheckerError>) -> bool
    decreases f, 1nat, 0nat,
{
    let k = item_key(oc.nodes@, SymbolValueItem::FuncDecl(f));
    match oc.nodes@[f as int] {
        Node::Function(fun, _) => if !has_key(os.symbols.cursor.scopes@, k) {
            enter_failed(os, oc, k, ns, nc, r)
        } else {
            exists|s1: WalkState, ms: WalkState, mc: IrCtx, r1: Result<(), TypeCheckerError>|
                #![trigger entered_state(os, k, s1), walk_step(ms, mc, r1)]
                entered_state(os, k, s1) && stmts_walked(s1, oc, fun.body@, f, ms, mc, r1)
                && (stopped(ms, mc, r1, ns, nc, r) || (r1 is Ok && hooked_then_exited(ms, mc, f, true, ns, nc, r)))
        },
        _ => false,
    }
}

/// The hook on the function (or struct) at node `d`, then, when it
/// succeeds, the way back out of its scope.
pub open spec fn hooked_then_exited(ms: WalkState, mc: IrCtx, d: NodeRef, is_fn: bool, ns: WalkState, nc: IrCtx, r: Result<(), TypeCheckerError>) -> bool {
    exists|hs: WalkState, hc: IrCtx, r2: Result<(), TypeCheckerError>|
        #![trigger hook_function_post(&hs, &hc, &ms, &mc, d, r2)]
        #![trigger hook_struct_post(&hs, &hc, &ms, &mc, d, r2)]
        (if is_fn { hook_function_post(&hs, &hc, &ms, &mc, d, r2) } else { hook_struct_post(&hs, &hc, &ms, &mc, d, r2) })
        && (stopped(hs, hc, r2, ns, nc, r) || (r2 is Ok && nc == hc && r is Ok && exited_state(hs, ns)))
}

/// The walk of the default values of the first `n` attributes of the
/// struct at node `d`, each read from the program as it stands then.
pub open spec fn attrs_walked(os: WalkState, oc: IrCtx, d: NodeRef, n: nat, ns: WalkState, nc: IrCtx, r: Result<(), TypeCheckerError>) -> bool
    decreases d, 0nat, n,
{
    if n == 0 {
        unmoved(os, oc, ns, nc, r)
    } else {
        exists|ms: WalkState, mc: IrCtx, r1: Result<(), TypeCheckerError>|
            #![trigger walk_step(ms, mc, r1)]
            attrs_walked(os, oc, d, (n - 1) as nat, ms, mc, r1)
            && (stopped(ms, mc, r1, ns, nc, r) || (r1 is Ok && match mc.nodes@[d as int]->Struct_0.attrs@[n - 1].default_value {
                Some(x) => if x < d { expr_walked(ms, mc, x, ns, nc, r) } else { false },
                None => unmoved(ms, mc, ns, nc, r),
            }))
    }
}

/// The walk of the struct at node `d`: the default values of its
/// attributes in its own scope, then its hook.
pub open spec fn struct_walked(os: WalkState, oc: IrCtx, d: NodeRef, ns: WalkState, nc: IrCtx, r: Result<(), TypeCheckerError>) -> bool
    decreases d, 1nat, 0nat,
{
    let k = item_key(oc.nodes@, SymbolValueItem::StructDecl(d));
    if !has_key(os.symbols.cursor.scopes@, k) {
        enter_failed(os, oc, k, ns, nc, r)
    } else {
        exists|s1: WalkState, ms: WalkState, mc: IrCtx, r1: Result<(), TypeCheckerError>|
            #![trigger entered_state(os, k, s1), walk_step(ms, mc, r1)]
            entered_state(os, k, s1) && attrs_walked(s1, oc, d, oc.nodes@[d as int]->Struct_0.attrs@.len(), ms, mc, r1)
            && (stopped(ms, mc, r1, ns, nc, r) || (r1 is Ok && hooked_then_exited(ms, mc, d, false, ns, nc, r)))
    }
}

/// The walk of statement `s`.
pub open spec fn stmt_walked(os: WalkState, oc: IrCtx, s: NodeRef, ns: WalkState, nc: IrCtx, r: Result<(), TypeCheckerError>) -> bool
    decreases s, 1nat, 0nat,
{
    match oc.nodes@[s as int] {
        Node::Stmt(stmt, _) => match stmt {
            Stmt::VariableDecl(v) => {
                let value = oc.nodes@[v as int]->VarDecl_0.value;
                if os.symbols.visited_symbols >= os.symbols.cursor.ordered_symbols@.len() {
                    ns == os && nc == oc && r == Err::<(), TypeCheckerError>(
                        TypeCheckerError::Scope(SymbolCollectionError::ScopeNotFound(IdentKey::Anonymous(v))))
                } else if value < s {
                    exists|s1: WalkState, ms: WalkState, mc: IrCtx, r1: Result<(), TypeCheckerError>, ps: WalkState|
                        #![trigger declaring(os, v, s1), walk_step(ms, mc, r1), undeclared(ms, os, ps)]
                        declaring(os, v, s1) && expr_walked(s1, oc, value, ms, mc, r1) && undeclared(ms, os, ps)
                        && (stopped(ps, mc, r1, ns, nc, r) || (r1 is Ok && hook_var_decl_post(&ns, &nc, &ps, &mc, v, r)))
                } else {
                    false
                }
            },
            Stmt::FunctionDecl(f) => if f < s { function_walked(os, oc, f, ns, nc, r) } else { false },
            Stmt::StructDecl(d) => if d < s { struct_walked(os, oc, d, ns, nc, r) } else { false },
            Stmt::EnumDecl(d) => hook_enum_post(&ns, &nc, &os, &oc, d, r),
            Stmt::Expression(x) => if x < s { expr_walked(os, oc, x, ns, nc, r) } else { false },
            Stmt::Return(x) => if x < s { expr_walked(os, oc, x, ns, nc, r) } else { false },
            Stmt::Comment(_) => unmoved(os, oc, ns, nc, r),
        },
        _ => false,
    }
}

/// The walk of statements `ss`, in order, up to the first that fails.
pub open spec fn stmts_walked(os: WalkState, oc: IrCtx, ss: Seq<NodeRef>, bound: NodeRef, ns: WalkState, nc: IrCtx, r: Result<(), TypeCheckerError>) -> bool
    decreases bound, 0nat, ss.len(),
{
    if ss.len() == 0 {
        unmoved(os, oc, ns, nc, r)
    } else {
        exists|ms: WalkState, mc: IrCtx, r1: Result<(), TypeCheckerError>|
            #![trigger walk_step(ms, mc, r1)]
            stmts_walked(os, oc, ss.drop_last(), bound, ms, mc, r1)
            && (stopped(ms, mc, r1, ns, nc, r) || (r1 is Ok && if ss.last() < bound {
                stmt_walked(ms, mc, ss.last(), ns, nc, r)
            } else {
                false
            }))
    }
}

/// A walk of a list that failed at some item ends there.
pub proof fn lemma_stmts_walked_stop(
    os: WalkState,
    oc: IrCtx,
    xs: Seq<NodeRef>,
    k: int,
    bound: NodeRef,
    ns: WalkState,
    nc: IrCtx,
    r: Result<(), TypeCheckerError>,
)
    requires
        0 <= k <= xs.len(),
        stmts_walked(os, oc, xs.take(k), bound, ns, nc, r),
        r is Err,
    ensures
        stmts_walked(os, oc, xs, bound, ns, nc, r),
    decreases xs.len() - k,
{
    if k < xs.len() {
        let t = xs.take(k + 1);
        assert(t.drop_last() =~= xs.take(k));
        assert(stmts_walked(os, oc, t.drop_last(), bound, ns, nc, r));
        assert(stopped(ns, nc, r, ns, nc, r));
        assert(walk_step(ns, nc, r));
        assert(stmts_walked(os, oc, t, bound, ns, nc, r));
        lemma_stmts_walked_stop(os, oc, xs, k + 1, bound, ns, nc, r);
    } else {
        assert(xs.take(k) =~= xs);
    }
}

/// A walk of a list that failed at some item ends there.
pub proof fn lemma_exprs_walked_stop(
    os: WalkState,
    oc: IrCtx,
    xs: Seq<NodeRef>,
    k: int,
    bound: NodeRef,
    ns: WalkState,
    nc: IrCtx,
    r: Result<(), TypeCheckerError>,
)
    requires
        0 <= k <= xs.len(),
        exprs_walked(os, oc, xs.take(k), bound, ns, nc, r),
        r is Err,
    ensures
        exprs_walked(os, oc, xs, bound, ns, nc, r),
    decreases xs.len() - k,
{
    if k < xs.len() {
        let t = xs.take(k + 1);
        assert(t.drop_last() =~= xs.take(k));
        assert(exprs_walked(os, oc, t.drop_last(), bound, ns, nc, r));
        assert(stopped(ns, nc, r, ns, nc, r));
        assert(walk_step(ns, nc, r));
        assert(exprs_walked(os, oc, t, bound, ns, nc, r));
        lemma_exprs_walked_stop(os, oc, xs, k + 1, bound, ns, nc, r);
    } else {
        assert(xs.take(k) =~= xs);
    }
}

/// A walk of the attributes that failed at some attribute ends there.
pub proof fn lemma_attrs_walked_stop(
    os: WalkState,
    oc: IrCtx,
    d: NodeRef,
    k: nat,
    n: nat,
    ns: WalkState,
    nc: IrCtx,
    r: Result<(), TypeCheckerError>,
)
    requires
        k <= n,
        attrs_walked(os, oc, d, k, ns, nc, r),
        r is Err,
    ensures
        attrs_walked(os, oc, d, n, ns, nc, r),
    decreases n - k,
{
    if k < n {
        assert(walk_step(ns, nc, r));
        assert(attrs_walked(os, oc, d, k + 1, ns, nc, r));
        lemma_attrs_walked_stop(os, oc, d, k + 1, n, ns, nc, r);
    }
}

/// Walks the statements `stmts`, all before node `bound`.
#[verifier::loop_isolation(false)]
pub fn walk_stmts(st: &mut WalkState, ctx: &mut IrCtx, stmts: &Vec<NodeRef>, bound: usize) -> (r: Result<(), TypeCheckerError>)
    requires
        walk_ok(old(st), old(ctx)),
        forall|k: int| 0 <= k < stmts@.len() ==> #[trigger] stmts@[k] < bound && is_stmt(old(ctx).nodes@, stmts@[k] as int),
    ensures
        r matches Err(e) ==> pass_error(old(st).pass, e),
        walk_post(r, final(st), final(ctx), old(st), old(ctx)),
        stmts_walked(*old(st), *old(ctx), stmts@, bound, *final(st), *final(ctx), r),
    decreases bound, 0nat,
{
    let ghost s0 = *st;
    let ghost c0 = *ctx;
    proof {
        lemma_walk_post_refl(st, ctx);
        assert(stmts@.take(0) =~= Seq::<NodeRef>::empty());
    }
    let mut i: usize = 0;
    while i < stmts.len()
        invariant
            i <= stmts@.len(),
            walk_post(Ok(()), st, ctx, &s0, &c0),
            stmts_walked(s0, c0, stmts@.take(i as int), bound, *st, *ctx, Ok(())),
        decreases stmts@.len() - i,
    {
        let ghost s1 = *st;
        let ghost c1 = *ctx;
        proof { lemma_kinds_compat(ctx.nodes@, c0.nodes@, stmts@[i as int] as int); }
        let r = walk_stmt(st, ctx, stmts[i]);
        proof {
            lemma_walk_post_trans(r, st, ctx, &s1, &c1, &s0, &c0);
            assert(stmts@.take(i as int + 1).drop_last() =~= stmts@.take(i as int));
            assert(walk_step(s1, c1, Ok(())));
            assert(stmts_walked(s0, c0, stmts@.take(i as int + 1), bound, *st, *ctx, r));
        }
        if r.is_err() {
            proof { lemma_stmts_walked_stop(s0, c0, stmts@, i as int + 1, bound, *st, *ctx, r); }
            return r;
        }
        proof { lemma_ok_unit(r); }
        i = i + 1;
    }
    proof { assert(stmts@.take(i as int) =~= stmts@); }
    Ok(())
}

/// Walks the expressions `es`, all before node `bound`.
#[verifier::loop_isolation(false)]
pub fn walk_exprs(st: &mut WalkState, ctx: &mut IrCtx, es: &Vec<NodeRef>, bound: usize) -> (r: Result<(), TypeCheckerError>)
    requires
        walk_ok(old(st), old(ctx)),
        forall|k: int| 0 <= k < es@.len() ==> #[trigger] es@[k] < bound && is_expr(old(ctx).nodes@, es@[k] as int),
    ensures
        r matches Err(e) ==> pass_error(old(st).pass, e),
        walk_post(r, final(st), final(ctx), old(st), old(ctx)),
        exprs_walked(*old(st), *old(ctx), es@, bound, *final(st), *final(ctx), r),
    decreases bound, 0nat,
{
    let ghost s0 = *st;
    let ghost c0 = *ctx;
    proof {
        lemma_walk_post_refl(st, ctx);
        assert(es@.take(0) =~= Seq::<NodeRef>::empty());
    }
    let mut i: usize = 0;
    while i < es.len()
        invariant
            i <= es@.len(),
            walk_post(Ok(()), st, ctx, &s0, &c0),
            exprs_walked(s0, c0, es@.take(i as int), bound, *st, *ctx, Ok(())),
        decreases es@.len() - i,
    {
        let ghost s1 = *st;
        let ghost c1 = *ctx;
        proof { lemma_kinds_compat(ctx.nodes@, c0.nodes@, es@[i as int] as int); }
        let r = walk_expr(st, ctx, es[i]);
        proof {
            lemma_walk_post_trans(r, st, ctx, &s1, &c1, &s0, &c0);
            assert(es@.take(i as int + 1).drop_last() =~= es@.take(i as int));
            assert(walk_step(s1, c1, Ok(())));
            assert(exprs_walked(s0, c0, es@.take(i as int + 1), bound, *st, *ctx, r));
        }
        if r.is_err() {
            proof { lemma_exprs_walked_stop(s0, c0, es@, i as int + 1, bound, *st, *ctx, r); }
            return r;
        }
        proof { lemma_ok_unit(r); }
        i = i + 1;
    }
    proof { assert(es@.take(i as int) =~= es@); }
    Ok(())
}

/// Marks the next variable of the current scope as declared; fails when the
/// scope has no more variables.
fn visit_variable(st: &mut WalkState, ctx: &IrCtx, v: NodeRef) -> (r: Result<(), TypeCheckerError>)
    requires
        walk_ok(old(st), ctx),
    ensures
        r matches Err(e) ==> pass_error(old(st).pass, e),
        walk_post(r, final(st), ctx, old(st), ctx),
        final(st).pass == old(st).pass,
        final(st).defining == old(st).defining,
        r is Ok <==> old(st).symbols.visited_symbols < old(st).symbols.cursor.ordered_symbols@.len(),
        r is Ok ==> *final(st) == (WalkState {
            symbols: SymbolTableZipper { visited_symbols: (old(st).symbols.visited_symbols + 1) as usize, ..old(st).symbols },
            ..*old(st)
        }),
        r is Err ==> *final(st) == *old(st) && r == Err::<(), TypeCheckerError>(
            TypeCheckerError::Scope(SymbolCollectionError::ScopeNotFound(super::node::IdentKey::Anonymous(v))),
        ),
{
    proof { lemma_walk_post_refl(st, ctx); }
    if st.symbols.visited_symbols < st.symbols.cursor.ordered_symbols.len() {
        st.symbols.visit_next_symbol();
        Ok(())
    } else {
        Err(TypeCheckerError::Scope(SymbolCollectionError::ScopeNotFound(super::node::IdentKey::Anonymous(v))))
    }
}

/// Walks statement `s`.
pub fn walk_stmt(st: &mut WalkState, ctx: &mut IrCtx, s: NodeRef) -> (r: Result<(), TypeCheckerError>)
    requires
        walk_ok(old(st), old(ctx)),
        is_stmt(old(ctx).nodes@, s as int),
    ensures
        r matches Err(e) ==> pass_error(old(st).pass, e),
        walk_post(r, final(st), final(ctx), old(st), old(ctx)),
        stmt_walked(*old(st), *old(ctx), s, *final(st), *final(ctx), r),
    decreases s, 1nat,
{
    let ghost s0 = *st;
    let ghost c0 = *ctx;
    proof {
        assert(node_ok(ctx.nodes@, s as int, ctx.types.types@.len() as int));
        lemma_walk_post_refl(st, ctx);
    }
    let stmt = match &ctx.nodes[s] {
        Node::Stmt(stmt, _) => stmt,
        _ => { return unreached(); },
    };
    match stmt {
        Stmt::VariableDecl(v) => {
            let v = *v;
            proof { assert(node_ok(ctx.nodes@, v as int, ctx.types.types@.len() as int)); }
            let value = match &ctx.nodes[v] {
                Node::VarDecl(d) => d.value,
                _ => { return unreached(); },
            };
            let r = visit_variable(st, ctx, v);
            if r.is_err() {
                return r;
            }
            st.defining.push(v);
            let ghost s1 = *st;
            let ghost c1 = *ctx;
            proof { assert(declaring(s0, v, s1)); }
            let r = walk_expr(st, ctx, value);
            let ghost s_after = *st;
            let ghost c_after = *ctx;
            proof { assert(walk_step(s_after, c_after, r)); }
            let _ = st.defining.pop();
            proof {
                assert(st.defining@ =~= s0.defining@);
                assert(undeclared(s_after, s0, *st));
                assert(s_after.defining@ == s0.defining@.push(v));
                assert forall|i: int| 0 <= i < st.defining@.len() implies is_var(ctx.nodes@, #[trigger] st.defining@[i] as int) by {
                    assert(st.defining@[i] == s_after.defining@[i]);
                }
                lemma_kinds_compat(ctx.nodes@, c0.nodes@, v as int);
                lemma_kinds_compat(ctx.nodes@, c0.nodes@, value as int);
            }
            if r.is_err() {
                return r;
            }
            let ghost s2 = *st;
            let ghost c2 = *ctx;
            let r = hook_var_decl(st, ctx, v);
            proof { lemma_walk_keeps_trans(st, ctx, &s2, &c2, &s0, &c0); }
            r
        },
        Stmt::FunctionDecl(f) => {
            let f = *f;
            walk_function(st, ctx, f)
        },
        Stmt::StructDecl(d) => {
            let d = *d;
            walk_struct(st, ctx, d)
        },
        Stmt::EnumDecl(d) => {
            let d = *d;
            hook_enum(st, ctx, d)
        },
        Stmt::Expression(e) | Stmt::Return(e) => {
            let e = *e;
            walk_expr(st, ctx, e)
        },
        Stmt::Comment(_) => Ok(()),
    }
}

/// Walks the function at node `f`: its body, in its own scope.
#[verifier::loop_isolation(false)]
pub fn walk_function(st: &mut WalkState, ctx: &mut IrCtx, f: NodeRef) -> (r: Result<(), TypeCheckerError>)
    requires
        walk_ok(old(st), old(ctx)),
        is_func(old(ctx).nodes@, f as int),
    ensures
        r matches Err(e) ==> pass_error(old(st).pass, e),
        walk_post(r, final(st), final(ctx), old(st), old(ctx)),
        function_walked(*old(st), *old(ctx), f, *final(st), *final(ctx), r),
    decreases f, 1nat,
{
    let ghost s0 = *st;
    let ghost c0 = *ctx;
    proof {
        assert(node_ok(ctx.nodes@, f as int, ctx.types.types@.len() as int));
        lemma_walk_post_refl(st, ctx);
    }
    let body = match &ctx.nodes[f] {
        Node::Function(fun, _) => copy_refs(&fun.body),
        _ => { return unreached(); },
    };
    let key = SymbolValueItem::FuncDecl(f).key(ctx);
    match st.symbols.enter_scope(&key) {
        Ok(_) => {},
        Err(e) => { return Err(TypeCheckerError::Scope(e)); },
    }
    let ghost s1 = *st;
    let ghost c1 = *ctx;
    assert(walk_keeps(&s1, &c1, &s0, &c0));
    proof { assert(entered_state(s0, key@, s1)); }
    let r = walk_stmts(st, ctx, &body, f);
    proof {
        lemma_walk_keeps_trans(st, ctx, &s1, &c1, &s0, &c0);
        assert(walk_step(*st, *ctx, r));
    }
    if r.is_err() {
        return r;
    }
    let ghost s2 = *st;
    let ghost c2 = *ctx;
    proof { lemma_kinds_compat(ctx.nodes@, c0.nodes@, f as int); }
    let r = hook_function(st, ctx, f);
    proof { lemma_walk_keeps_trans(st, ctx, &s2, &c2, &s0, &c0); }
    if r.is_err() {
        proof { assert(hooked_then_exited(s2, c2, f, true, *st, *ctx, r)); }
        return r;
    }
    let ghost z1b = st.symbols;
    let ghost s3 = *st;
    st.symbols.exit_scope();
    proof {
        lemma_enter_exit_same_scope(s0.symbols, key@, s1.symbols, z1b, st.symbols);
        assert(exited_state(s3, *st));
        assert(hooked_then_exited(s2, c2, f, true, *st, *ctx, Ok(())));
    }
    Ok(())
}

/// Walks the struct at node `d`: the default values of its attributes, in
/// its own scope.
#[verifier::loop_isolation(false)]
pub fn walk_struct(st: &mut WalkState, ctx: &mut IrCtx, d: NodeRef) -> (r: Result<(), TypeCheckerError>)
    requires
        walk_ok(old(st), old(ctx)),
        is_struct(old(ctx).nodes@, d as int),
    ensures
        r matches Err(e) ==> pass_error(old(st).pass, e),
        walk_post(r, final(st), final(ctx), old(st), old(ctx)),
        struct_walked(*old(st), *old(ctx), d, *final(st), *final(ctx), r),
    decreases d, 1nat,
{
    let ghost s0 = *st;
    let ghost c0 = *ctx;
    proof {
        lemma_walk_post_refl(st, ctx);
    }
    let key = SymbolValueItem::StructDecl(d).key(ctx);
    let n = match &ctx.nodes[d] {
        Node::Struct(sd) => sd.attrs.len(),
        _ => { return unreached(); },
    };
    match st.symbols.enter_scope(&key) {
        Ok(_) => {},
        Err(e) => { return Err(TypeCheckerError::Scope(e)); },
    }
    let ghost s1 = *st;
    let ghost c1 = *ctx;
    proof {
        lemma_walk_post_refl(st, ctx);
        assert(entered_state(s0, key@, s1));
    }
    let mut k: usize = 0;
    while k < n
        invariant
            k <= n,
            attrs_walked(s1, c1, d, k as nat, *st, *ctx, Ok(())),
            walk_post(Ok(()), st, ctx, &s1, &c1),
            walk_keeps(&s1, &c1, &s0, &c0),
            is_struct(ctx.nodes@, d as int),
            n == ctx.nodes@[d as int]->Struct_0.attrs@.len(),
        decreases n - k,
    {
        proof { assert(node_ok(ctx.nodes@, d as int, ctx.types.types@.len() as int)); }
        let default = match &ctx.nodes[d] {
            Node::Struct(sd) => sd.attrs[k].default_value,
            _ => { return unreached(); },
        };
        match default {
            Some(x) => {
                let ghost s2 = *st;
                let ghost c2 = *ctx;
                let r = walk_expr(st, ctx, x);
                proof {
                    lemma_walk_post_trans(r, st, ctx, &s2, &c2, &s1, &c1);
                    lemma_walk_keeps_trans(st, ctx, &s1, &c1, &s0, &c0);
                    lemma_kinds_compat(ctx.nodes@, c2.nodes@, d as int);
                    assert(node_compat(ctx.nodes@[d as int], c2.nodes@[d as int]));
                    assert(walk_step(s2, c2, Ok(())));
                    assert(attrs_walked(s1, c1, d, (k + 1) as nat, *st, *ctx, r));
                }
                if r.is_err() {
                    proof {
                        lemma_attrs_walked_stop(s1, c1, d, (k + 1) as nat, n as nat, *st, *ctx, r);
                        assert(walk_step(*st, *ctx, r));
                    }
                    return r;
                }
                proof { lemma_ok_unit(r); }
            },
            None => {
                proof {
                    assert(walk_step(*st, *ctx, Ok(())));
                    assert(attrs_walked(s1, c1, d, (k + 1) as nat, *st, *ctx, Ok(())));
                }
            },
        }
        k = k + 1;
    }
    proof { lemma_walk_keeps_trans(st, ctx, &s1, &c1, &s0, &c0); }
    let ghost s2 = *st;
    let ghost c2 = *ctx;
    proof { assert(walk_step(s2, c2, Ok(()))); }
    let r = hook_struct(st, ctx, d);
    proof { lemma_walk_keeps_trans(st, ctx, &s2, &c2, &s0, &c0); }
    if r.is_err() {
        proof { assert(hooked_then_exited(s2, c2, d, false, *st, *ctx, r)); }
        return r;
    }
    let ghost z1b = st.symbols;
    let ghost s3 = *st;
    st.symbols.exit_scope();
    proof {
        lemma_enter_exit_same_scope(s0.symbols, key@, s1.symbols, z1b, st.symbols);
        assert(exited_state(s3, *st));
        assert(hooked_then_exited(s2, c2, d, false, *st, *ctx, Ok(())));
    }
    Ok(())
}

/// Walks expression `e`: the expressions in it, the scopes it opens, then
/// the expression itself.
pub fn walk_expr(st: &mut WalkState, ctx: &mut IrCtx, e: NodeRef) -> (r: Result<(), TypeCheckerError>)
    requires
        walk_ok(old(st), old(ctx)),
        is_expr(old(ctx).nodes@, e as int),
    ensures
        r matches Err(e) ==> pass_error(old(st).pass, e),
        walk_post(r, final(st), final(ctx), old(st), old(ctx)),
        expr_walked(*old(st), *old(ctx), e, *final(st), *final(ctx), r),
    decreases e, 2nat,
{
    let ghost s0 = *st;
    let ghost c0 = *ctx;
    proof {
        assert(node_ok(ctx.nodes@, e as int, ctx.types.types@.len() as int));
        lemma_walk_post_refl(st, ctx);
    }
    let r = walk_expr_parts(st, ctx, e);
    proof { assert(walk_step(*st, *ctx, r)); }
    if r.is_err() {
        return r;
    }
    let ghost s1 = *st;
    let ghost c1 = *ctx;
    proof { lemma_kinds_compat(ctx.nodes@, c0.nodes@, e as int); }
    let r = hook_expr(st, ctx, e);
    proof { lemma_walk_keeps_trans(st, ctx, &s1, &c1, &s0, &c0); }
    r
}

/// Walks the expressions in `e` and the scopes it opens.
#[verifier::loop_isolation(false)]
fn walk_expr_parts(st: &mut WalkState, ctx: &mut IrCtx, e: NodeRef) -> (r: Result<(), TypeCheckerError>)
    requires
        walk_ok(old(st), old(ctx)),
        is_expr(old(ctx).nodes@, e as int),
    ensures
        r matches Err(e) ==> pass_error(old(st).pass, e),
        walk_post(r, final(st), final(ctx), old(st), old(ctx)),
        parts_walked(*old(st), *old(ctx), e, *final(st), *final(ctx), r),
    decreases e, 1nat,
{
    let ghost s0 = *st;
    let ghost c0 = *ctx;
    proof {
        assert(node_ok(ctx.nodes@, e as int, ctx.types.types@.len() as int));
        lemma_walk_post_refl(st, ctx);
    }
    let ex = match &ctx.nodes[e] {
        Node::Expr(ex, _) => ex,
        _ => { return unreached(); },
    };
    match ex {
        Expr::Tuple(items) | Expr::EnumInit { items, .. } => {
            let items = copy_refs(items);
            walk_exprs(st, ctx, &items, e)
        },
        Expr::TupleAccess { tuple_expr: x, .. } | Expr::StructAccess { struct_expr: x, .. } => {
            let x = *x;
            walk_expr(st, ctx, x)
        },
        Expr::FunctionCall { func, params } | Expr::MethodCall { struct_expr: func, params, .. } => {
            let func = *func;
            let params = copy_refs(params);
            let r = walk_expr(st, ctx, func);
            proof { assert(walk_step(*st, *ctx, r)); }
            if r.is_err() {
                return r;
            }
            let ghost s1 = *st;
            let ghost c1 = *ctx;
            proof {
                assert forall|k: int| 0 <= k < params@.len() implies #[trigger] params@[k] < e && is_expr(ctx.nodes@, params@[k] as int) by {
                    lemma_kinds_compat(ctx.nodes@, c0.nodes@, params@[k] as int);
                }
            }
            let r = walk_exprs(st, ctx, &params, e);
            proof { lemma_walk_post_trans(r, st, ctx, &s1, &c1, &s0, &c0); }
            r
        },
        Expr::Function(f) => {
            let f = *f;
            walk_function(st, ctx, f)
        },
        Expr::StructInit { values, .. } => {
            let n = values.len();
            let mut vals: Vec<NodeRef> = Vec::new();
            let mut k: usize = 0;
            while k < n
                invariant
                    k <= n,
                    n == values@.len(),
                    vals@.len() == k,
                    forall|j: int| 0 <= j < k ==> #[trigger] vals@[j] == values@[j].value,
                decreases n - k,
            {
                vals.push(values[k].value);
                k = k + 1;
            }
            proof { assert(vals@ =~= values@.map_values(|x: StructInitValue| x.value)); }
            let key = super::node::IdentKey::Anonymous(e);
            match st.symbols.enter_scope(&key) {
                Ok(_) => {},
                Err(err) => { return Err(TypeCheckerError::Scope(err)); },
            }
            let ghost s1 = *st;
            let ghost c1 = *ctx;
            assert(walk_keeps(&s1, &c1, &s0, &c0));
            proof { assert(entered_state(s0, key@, s1)); }
            let r = walk_exprs(st, ctx, &vals, e);
            proof {
                lemma_walk_keeps_trans(st, ctx, &s1, &c1, &s0, &c0);
                assert(walk_step(*st, *ctx, r));
            }
            if r.is_err() {
                return r;
            }
            let ghost z1b = st.symbols;
            let ghost s3 = *st;
            st.symbols.exit_scope();
            proof {
                lemma_enter_exit_same_scope(s0.symbols, key@, s1.symbols, z1b, st.symbols);
                assert(exited_state(s3, *st));
            }
            Ok(())
        },
        Expr::UnresolvedMemberAccess { object, items, .. } => {
            let obj = *object;
            let its = match items {
                Some(v) => copy_refs(v),
                None => Vec::new(),
            };
            match obj {
                Some(o) => {
                    let r = walk_expr(st, ctx, o);
                    proof { assert(walk_step(*st, *ctx, r)); }
                    if r.is_err() {
                        return r;
                    }
                },
                None => {},
            }
            let ghost s1 = *st;
            let ghost c1 = *ctx;
            proof {
                assert forall|k: int| 0 <= k < its@.len() implies #[trigger] its@[k] < e && is_expr(ctx.nodes@, its@[k] as int) by {
                    lemma_kinds_compat(ctx.nodes@, c0.nodes@, its@[k] as int);
                }
            }
            let r = walk_exprs(st, ctx, &its, e);
            proof { lemma_walk_post_trans(r, st, ctx, &s1, &c1, &s0, &c0); }
            r
        },
        Expr::Assignment { lhs, rhs } => {
            let lhs = *lhs;
            let rhs = *rhs;
            let r = walk_expr(st, ctx, lhs);
            proof { assert(walk_step(*st, *ctx, r)); }
            if r.is_err() {
                return r;
            }
            let ghost s1 = *st;
            let ghost c1 = *ctx;
            proof { lemma_kinds_compat(ctx.nodes@, c0.nodes@, rhs as int); }
            let r = walk_expr(st, ctx, rhs);
            proof {
                lemma_walk_post_trans(r, st, ctx, &s1, &c1, &s0, &c0);
                assert(seq![rhs].drop_last() =~= Seq::<NodeRef>::empty());
                assert(exprs_walked(s1, c1, seq![rhs].drop_last(), e, s1, c1, Ok(())));
                assert(walk_step(s1, c1, Ok(())));
                assert(exprs_walked(s1, c1, seq![rhs], e, *st, *ctx, r));
            }
            r
        },
        _ => Ok(()),
    }
}

/// The walk of a whole program: its statements, in order, up to the first
/// that fails.
pub open spec fn program_walked(os: WalkState, oc: IrCtx, stmts: Seq<NodeRef>, ns: WalkState, nc: IrCtx, r: Result<(), TypeCheckerError>) -> bool {
    stmts_walked(os, oc, stmts, oc.nodes@.len() as NodeRef, ns, nc, r)
}

/// Walks a whole program.
pub fn walk_program(st: &mut WalkState, ctx: &mut IrCtx, stmts: &Vec<NodeRef>) -> (r: Result<(), TypeCheckerError>)
    requires
        walk_ok(old(st), old(ctx)),
        crate::parser::stmts_valid(old(ctx).nodes@, stmts@),
    ensures
        r matches Err(e) ==> pass_error(old(st).pass, e),
        walk_post(r, final(st), final(ctx), old(st), old(ctx)),
        program_walked(*old(st), *old(ctx), stmts@, *final(st), *final(ctx), r),
{
    walk_stmts(st, ctx, stmts, ctx.nodes.len())
}

/// What a walk reports of a name resolution step.
pub open spec fn as_resolution(r: Result<(), TypeCheckerError>) -> Result<(), SymbolResolutionError> {
    match r {
        Ok(()) => Ok(()),
        Err(TypeCheckerError::SymbolResolutionError(x)) => Err(x),
        Err(_) => arbitrary(),
    }
}

/// A step of name resolution: its result is `Ok` or a resolution error.
pub open spec fn resolution_step(r: Result<(), TypeCheckerError>) -> bool {
    r is Ok || r matches Err(TypeCheckerError::SymbolResolutionError(_))
}

/// What the hook does, in each pass.
pub open spec fn hook_var_decl_post(st_new: &WalkState, ctx_new: &IrCtx, st_old: &WalkState, ctx_old: &IrCtx, v: NodeRef, r: Result<(), TypeCheckerError>) -> bool {
    &&& (r matches Err(e) ==> pass_error(st_old.pass, e))
    &&& (hook_post(st_new, ctx_new, st_old, ctx_old))
    &&& (st_old.pass == Pass::ResolveSymbols ==> *st_new == *st_old && resolution_step(r) && exists|mid: IrCtx|
            #![trigger crate::symbols::symbol_resolver::resolve_var_type_post(&mid, ctx_old, st_old.symbols, v, as_resolution(r))]
            crate::symbols::symbol_resolver::resolve_var_type_post(&mid, ctx_old, st_old.symbols, v, as_resolution(r))
            && (r is Ok ==> crate::symbols::symbol_resolver::settle_var_type_post(ctx_new, &mid, st_old.symbols, v))
            && (r is Err ==> *ctx_new == mid))
    &&& (st_old.pass == Pass::InferTypes ==> crate::type_checker::type_inference::infer_var_decl_post(st_new, ctx_new, st_old, ctx_old, v, r))
    &&& (st_old.pass == Pass::ResolveTypes ==> r is Ok && crate::type_checker::type_resolver::apply_var_post(st_new, ctx_new, st_old, ctx_old, v))
    &&& (st_old.pass == Pass::CheckTypes ==> *st_new == *st_old && *ctx_new == *ctx_old && r is Ok)
}

fn hook_var_decl(st: &mut WalkState, ctx: &mut IrCtx, v: NodeRef) -> (r: Result<(), TypeCheckerError>)
    requires
        walk_ok(old(st), old(ctx)),
        is_var(old(ctx).nodes@, v as int),
    ensures
        hook_var_decl_post(final(st), final(ctx), old(st), old(ctx), v, r),
{
    proof { lemma_nodes_compat_refl(ctx.nodes@); }
    match st.pass {
        Pass::ResolveSymbols => {
            let ghost c0 = *ctx;
            let r = resolve_var_type(ctx, &st.symbols, v);
            proof { lemma_hook_resolved(st, ctx, &c0); }
            let ghost c1 = *ctx;
            match r {
                Ok(_) => {
                    proof { lemma_kinds_compat(ctx.nodes@, c0.nodes@, v as int); }
                    settle_var_type(ctx, &st.symbols, v);
                    proof {
                        lemma_resolve_post_trans(ctx, &c1, &c0);
                        lemma_hook_resolved(st, ctx, &c0);
                        assert(crate::symbols::symbol_resolver::resolve_var_type_post(&c1, &c0, st.symbols, v, as_resolution(Ok(()))));
                    }
                    Ok(())
                },
                Err(e) => {
                    proof {
                        assert(crate::symbols::symbol_resolver::resolve_var_type_post(&c1, &c0, st.symbols, v,
                            as_resolution(Err(TypeCheckerError::SymbolResolutionError(e)))));
                    }
                    Err(TypeCheckerError::SymbolResolutionError(e))
                },
            }
        },
        Pass::InferTypes => {
            let ghost c0 = *ctx;
            let ghost s0 = *st;
            let r = infer_var_decl(st, ctx, v);
            proof { lemma_infer_hook(st, ctx, &s0, &c0); }
            r
        },
        Pass::ResolveTypes => {
            let ghost c0 = *ctx;
            let ghost s0 = *st;
            apply_var(st, ctx, v);
            proof { lemma_apply_hook(st, ctx, &s0, &c0); }
            Ok(())
        },
        _ => Ok(()),
    }
}

/// Gathering constraints keeps what a hook must keep.
proof fn lemma_infer_hook(st: &WalkState, ctx: &IrCtx, s0: &WalkState, c0: &IrCtx)
    requires
        walk_ok(s0, c0),
        crate::ir::typed::eval_post(ctx, c0),
        crate::type_checker::type_inference::infer_keeps(st, s0),
        crate::type_checker::type_inference::constraints_in(st.constraints@, ctx.types.types@.len() as int),
    ensures
        walk_ok(st, ctx),
        walk_keeps(st, ctx, s0, c0),
        st.symbols == s0.symbols,
{
    crate::type_checker::type_inference::lemma_infer_walk_ok(st, ctx, s0, c0);
    lemma_nodes_compat_refl(c0.nodes@);
}

/// Applying substitutions keeps what a hook must keep.
proof fn lemma_apply_hook(st: &WalkState, ctx: &IrCtx, s0: &WalkState, c0: &IrCtx)
    requires
        walk_ok(s0, c0),
        resolve_post(ctx, c0),
        crate::type_checker::type_resolver::apply_keeps(st, s0),
    ensures
        walk_ok(st, ctx),
        walk_keeps(st, ctx, s0, c0),
        st.symbols == s0.symbols,
{
    assert(walk_ok(st, c0));
    lemma_hook_resolved(st, ctx, c0);
}

/// A resolving step keeps the walk's invariant.
proof fn lemma_hook_resolved(st: &WalkState, new: &IrCtx, old: &IrCtx)
    requires
        walk_ok(st, old),
        resolve_post(new, old),
    ensures
        walk_ok(st, new),
        walk_keeps(st, new, st, old),
{
    lemma_zipper_ok_compat(new.nodes@, old.nodes@, arena_items(new.symbols), arena_ident(new.symbols), st.symbols);
    assert forall|i: int| 0 <= i < st.defining@.len() implies is_var(new.nodes@, #[trigger] st.defining@[i] as int) by {
        lemma_kinds_compat(new.nodes@, old.nodes@, st.defining@[i] as int);
    }
    lemma_subst_ok_extends(new, old, st.substitutions@);
    lemma_constraints_in_grow(st.constraints@, old.types.types@.len() as int, new.types.types@.len() as int);
}

/// What the hook does, in each pass.
pub open spec fn hook_function_post(st_new: &WalkState, ctx_new: &IrCtx, st_old: &WalkState, ctx_old: &IrCtx, f: NodeRef, r: Result<(), TypeCheckerError>) -> bool {
    &&& (r matches Err(e) ==> pass_error(st_old.pass, e))
    &&& (hook_post(st_new, ctx_new, st_old, ctx_old))
    &&& (st_old.pass == Pass::ResolveSymbols ==> *st_new == *st_old && resolution_step(r)
            && crate::symbols::symbol_resolver::resolve_function_types_post(ctx_new, ctx_old, st_old.symbols, f, as_resolution(r)))
    &&& (st_old.pass == Pass::InferTypes ==> crate::type_checker::type_inference::infer_function_body_post(st_new, ctx_new, st_old, ctx_old, f, r))
    &&& (st_old.pass == Pass::ResolveTypes ==> r is Ok && crate::type_checker::type_resolver::apply_function_post(st_new, ctx_new, st_old, ctx_old, f))
    &&& (st_old.pass == Pass::CheckTypes ==> *st_new == *st_old && *ctx_new == *ctx_old && r is Ok)
}

fn hook_function(st: &mut WalkState, ctx: &mut IrCtx, f: NodeRef) -> (r: Result<(), TypeCheckerError>)
    requires
        walk_ok(old(st), old(ctx)),
        is_func(old(ctx).nodes@, f as int),
    ensures
        hook_function_post(final(st), final(ctx), old(st), old(ctx), f, r),
{
    proof { lemma_nodes_compat_refl(ctx.nodes@); }
    match st.pass {
        Pass::ResolveSymbols => {
            let ghost c0 = *ctx;
            let r = resolve_function_types(ctx, &st.symbols, f);
            proof { lemma_hook_resolved(st, ctx, &c0); }
            match r {
                Ok(_) => Ok(()),
                Err(e) => Err(TypeCheckerError::SymbolResolutionError(e)),
            }
        },
        Pass::InferTypes => {
            let ghost c0 = *ctx;
            let ghost s0 = *st;
            let r = infer_function_body(st, ctx, f);
            proof { lemma_infer_hook(st, ctx, &s0, &c0); }
            r
        },
        Pass::ResolveTypes => {
            let ghost c0 = *ctx;
            let ghost s0 = *st;
            apply_function(st, ctx, f);
            proof { lemma_apply_hook(st, ctx, &s0, &c0); }
            Ok(())
        },
        _ => Ok(()),
    }
}

/// What the hook does, in each pass.
pub open spec fn hook_struct_post(st_new: &WalkState, ctx_new: &IrCtx, st_old: &WalkState, ctx_old: &IrCtx, d: NodeRef, r: Result<(), TypeCheckerError>) -> bool {
    &&& (r matches Err(e) ==> pass_error(st_old.pass, e))
    &&& (hook_post(st_new, ctx_new, st_old, ctx_old))
    &&& (st_old.pass == Pass::ResolveSymbols ==> *st_new == *st_old && resolution_step(r)
            && crate::symbols::symbol_resolver::resolve_struct_types_post(ctx_new, ctx_old, st_old.symbols, d, as_resolution(r)))
    &&& (st_old.pass == Pass::InferTypes ==> crate::type_checker::type_inference::infer_struct_post(st_new, ctx_new, st_old, ctx_old, d, r))
    &&& (st_old.pass == Pass::ResolveTypes ==> r is Ok && crate::type_checker::type_resolver::apply_struct_post(st_new, ctx_new, st_old, ctx_old, d))
    &&& (st_old.pass == Pass::CheckTypes ==> *st_new == *st_old && *ctx_new == *ctx_old && r is Ok)
}

fn hook_struct(st: &mut WalkState, ctx: &mut IrCtx, d: NodeRef) -> (r: Result<(), TypeCheckerError>)
    requires
        walk_ok(old(st), old(ctx)),
        is_struct(old(ctx).nodes@, d as int),
    ensures
        hook_struct_post(final(st), final(ctx), old(st), old(ctx), d, r),
{
    proof { lemma_nodes_compat_refl(ctx.nodes@); }
    match st.pass {
        Pass::ResolveSymbols => {
            let ghost c0 = *ctx;
            let r = resolve_struct_types(ctx, &st.symbols, d);
            proof { lemma_hook_resolved(st, ctx, &c0); }
            match r {
                Ok(_) => Ok(()),
                Err(e) => Err(TypeCheckerError::SymbolResolutionError(e)),
            }
        },
        Pass::InferTypes => {
            let ghost c0 = *ctx;
            let ghost s0 = *st;
            let r = infer_struct(st, ctx, d);
            proof { lemma_infer_hook(st, ctx, &s0, &c0); }
            r
        },
        Pass::ResolveTypes => {
            let ghost c0 = *ctx;
            let ghost s0 = *st;
            apply_struct(st, ctx, d);
            proof { lemma_apply_hook(st, ctx, &s0, &c0); }
            Ok(())
        },
        _ => Ok(()),
    }
}

/// What the hook does, in each pass.
pub open spec fn hook_enum_post(st_new: &WalkState, ctx_new: &IrCtx, st_old: &WalkState, ctx_old: &IrCtx, d: NodeRef, r: Result<(), TypeCheckerError>) -> bool {
    &&& (r matches Err(e) ==> pass_error(st_old.pass, e))
    &&& (walk_post(r, st_new, ctx_new, st_old, ctx_old))
    &&& (st_old.pass == Pass::ResolveSymbols ==> *st_new == *st_old && resolution_step(r)
            && crate::symbols::symbol_resolver::resolve_enum_types_post(ctx_new, ctx_old, st_old.symbols, d, as_resolution(r)))
    &&& (st_old.pass != Pass::ResolveSymbols ==> *st_new == *st_old && *ctx_new == *ctx_old && r is Ok)
}

fn hook_enum(st: &mut WalkState, ctx: &mut IrCtx, d: NodeRef) -> (r: Result<(), TypeCheckerError>)
    requires
        walk_ok(old(st), old(ctx)),
        is_enum(old(ctx).nodes@, d as int),
    ensures
        hook_enum_post(final(st), final(ctx), old(st), old(ctx), d, r),
{
    proof { lemma_nodes_compat_refl(ctx.nodes@); }
    match st.pass {
        Pass::ResolveSymbols => {
            let ghost c0 = *ctx;
            let r = resolve_enum_types(ctx, &st.symbols, d);
            proof { lemma_hook_resolved(st, ctx, &c0); }
            match r {
                Ok(_) => Ok(()),
                Err(e) => Err(TypeCheckerError::SymbolResolutionError(e)),
            }
        },
        _ => Ok(()),
    }
}

/// What the hook does, in each pass.
pub open spec fn hook_expr_post(st_new: &WalkState, ctx_new: &IrCtx, st_old: &WalkState, ctx_old: &IrCtx, e: NodeRef, r: Result<(), TypeCheckerError>) -> bool {
    &&& (r matches Err(e) ==> pass_error(st_old.pass, e))
    &&& (hook_post(st_new, ctx_new, st_old, ctx_old))
    &&& (st_old.pass == Pass::ResolveSymbols ==> *st_new == *st_old && resolution_step(r)
            && resolve_expr_post(ctx_new, ctx_old, st_old, e, as_resolution(r)))
    &&& (st_old.pass == Pass::InferTypes ==> crate::type_checker::type_inference::infer_expr_post(st_new, ctx_new, st_old, ctx_old, e, r))
    &&& (st_old.pass == Pass::ResolveTypes ==> crate::type_checker::type_resolver::apply_expr_post(st_new, ctx_new, st_old, ctx_old, e, r))
    &&& (st_old.pass == Pass::CheckTypes ==> *st_new == *st_old && check_expr_post(ctx_new, ctx_old, st_old, e, r))
}

fn hook_expr(st: &mut WalkState, ctx: &mut IrCtx, e: NodeRef) -> (r: Result<(), TypeCheckerError>)
    requires
        walk_ok(old(st), old(ctx)),
        is_expr(old(ctx).nodes@, e as int),
    ensures
        hook_expr_post(final(st), final(ctx), old(st), old(ctx), e, r),
{
    proof { lemma_nodes_compat_refl(ctx.nodes@); }
    match st.pass {
        Pass::ResolveSymbols => {
            let ghost c0 = *ctx;
            let r = resolve_expr(st, ctx, e);
            proof { lemma_hook_resolved(st, ctx, &c0); }
            match r {
                Ok(_) => Ok(()),
                Err(x) => Err(TypeCheckerError::SymbolResolutionError(x)),
            }
        },
        Pass::InferTypes => {
            let ghost c0 = *ctx;
            let ghost s0 = *st;
            let r = infer_expr(st, ctx, e);
            proof { lemma_infer_hook(st, ctx, &s0, &c0); }
            r
        },
        Pass::ResolveTypes => {
            let ghost c0 = *ctx;
            let ghost s0 = *st;
            let r = apply_expr(st, ctx, e);
            proof { lemma_apply_hook(st, ctx, &s0, &c0); }
            r
        },
        Pass::CheckTypes => {
            let ghost c0 = *ctx;
            let r = check_expr(st, ctx, e);
            proof {
                crate::symbols::symbol_resolver::lemma_eval_post_resolve_post(ctx, &c0);
                lemma_hook_resolved(st, ctx, &c0);
            }
            r
        },
    }
}

/// What checking the expression at node `e` does.
pub open spec fn check_expr_post(ctx_new: &IrCtx, ctx_old: &IrCtx, st_old: &WalkState, e: NodeRef, r: Result<(), TypeCheckerError>) -> bool {
    &&& (crate::ir::typed::eval_post(ctx_new, ctx_old))
    &&& (ctx_old.nodes@[e as int]->Expr_0 is Assignment ==> (crate::type_checker::check_assignment::lvalue_error(
            e,
            ctx_old.nodes@[e as int]->Expr_0->Assignment_lhs,
            crate::type_checker::check_assignment::lvalue_check(ctx_old.nodes@, crate::symbols::symbol_table::arena_items(
                ctx_old.symbols), ctx_old.types.types@, st_old.symbols, ctx_old.nodes@[e as int]->Expr_0->Assignment_lhs),
            r,
        )))
    &&& (ctx_old.nodes@[e as int]->Expr_0 is StructInit ==> *ctx_new == *ctx_old
            && crate::type_checker::check_struct::struct_check_outcome(ctx_old, st_old.symbols, e, r))
    &&& (ctx_old.nodes@[e as int]->Expr_0 is EnumInit ==> *ctx_new == *ctx_old
            && crate::type_checker::check_enum::enum_check_outcome(ctx_old, st_old.symbols, e, r))
    &&& (ctx_old.nodes@[e as int]->Expr_0 is Identifier ==> *ctx_new == *ctx_old
            && crate::type_checker::check_expr_ident::ident_check_outcome(ctx_old, st_old.symbols, e,
                ctx_old.nodes@[e as int]->Expr_0->Identifier_0, r))
    &&& (!(ctx_old.nodes@[e as int]->Expr_0 is Assignment || ctx_old.nodes@[e as int]->Expr_0 is StructInit
            || ctx_old.nodes@[e as int]->Expr_0 is EnumInit || ctx_old.nodes@[e as int]->Expr_0 is Identifier)
            ==> r is Ok && *ctx_new == *ctx_old)
}

/// Checks expression `e` once its types are known: assignments, struct and
/// enum initializations, and names used as values.
fn check_expr(st: &WalkState, ctx: &mut IrCtx, e: NodeRef) -> (r: Result<(), TypeCheckerError>)
    requires
        walk_ok(st, old(ctx)),
        is_expr(old(ctx).nodes@, e as int),
    ensures
        check_expr_post(final(ctx), old(ctx), st, e, r),
{
    let kind: u8 = match &ctx.nodes[e] {
        Node::Expr(Expr::Assignment { .. }, _) => 0,
        Node::Expr(Expr::StructInit { .. }, _) => 1,
        Node::Expr(Expr::EnumInit { .. }, _) => 2,
        Node::Expr(Expr::Identifier(_), _) => 3,
        _ => 4,
    };
    if kind == 0 {
        check_assignment(ctx, &st.symbols, e)
    } else if kind == 1 {
        check_struct_init(ctx, &st.symbols, e)
    } else if kind == 2 {
        check_enum_init(ctx, &st.symbols, e)
    } else if kind == 3 {
        let id = match &ctx.nodes[e] {
            Node::Expr(Expr::Identifier(id), _) => id.copy(),
            _ => { return unreached(); },
        };
        check_expr_ident(ctx, &st.symbols, e, &id)
    } else {
        Ok(())
    }
}

/// What resolving a member access made of it: an attribute read or call on
/// its object, an enum value, or, without an object, the access unchanged;
/// each for the same member.
pub open spec fn member_resolved_shape(y: Expr, x: Expr) -> bool {
    let member = x->UnresolvedMemberAccess_member_name;
    let object = x->UnresolvedMemberAccess_object;
    match y {
        Expr::StructAccess { struct_expr, attr_name } => object == Some(struct_expr) && attr_name.name@ == member.name@
            && x->UnresolvedMemberAccess_items is None,
        Expr::MethodCall { struct_expr, attr_name, params } => object == Some(struct_expr) && attr_name.name@ == member.name@
            && (x->UnresolvedMemberAccess_items matches Some(ps) && params@ == ps@),
        Expr::EnumInit { enum_value, .. } => object is Some && enum_value.name@ == member.name@,
        Expr::UnresolvedMemberAccess { object: o2, member_name, .. } => object is None && o2 is None
            && member_name.name@ == member.name@,
        _ => false,
    }
}

/// What resolving the names of the expression at node `e` does.
pub open spec fn resolve_expr_post(ctx_new: &IrCtx, ctx_old: &IrCtx, st_old: &WalkState, e: NodeRef, r: Result<(), SymbolResolutionError>) -> bool {
    &&& (resolve_post(ctx_new, ctx_old))
    &&& (ctx_old.nodes@[e as int]->Expr_0 is Identifier ==> *ctx_new == *ctx_old
            && crate::symbols::symbol_resolver::ident_outcome(ctx_old, st_old.symbols, st_old.defining@,
                ctx_old.nodes@[e as int]->Expr_0->Identifier_0, r))
    &&& (ctx_old.nodes@[e as int]->Expr_0 is StructInit ==> *ctx_new == *ctx_old
            && crate::symbols::symbol_resolver::struct_init_outcome(ctx_old, st_old.symbols, e, r))
    &&& (ctx_old.nodes@[e as int]->Expr_0 is EnumInit ==> *ctx_new == *ctx_old
            && crate::symbols::symbol_resolver::enum_init_outcome(ctx_old, st_old.symbols, e, r))
    &&& (ctx_old.nodes@[e as int]->Expr_0 is EscapeBlock ==> crate::symbols::symbol_resolver::escape_type_resolved(
            ctx_new, ctx_old, st_old.symbols, e, r))
    &&& (ctx_old.nodes@[e as int]->Expr_0 is UnresolvedMemberAccess && r is Ok ==> ctx_new.nodes@[e as int] is Expr
            && ctx_new.nodes@[e as int]->Expr_1 == ctx_old.nodes@[e as int]->Expr_1
            && member_resolved_shape(ctx_new.nodes@[e as int]->Expr_0, ctx_old.nodes@[e as int]->Expr_0))
    &&& (!(ctx_old.nodes@[e as int]->Expr_0 is Identifier || ctx_old.nodes@[e as int]->Expr_0 is StructInit
            || ctx_old.nodes@[e as int]->Expr_0 is EnumInit || ctx_old.nodes@[e as int]->Expr_0 is EscapeBlock
            || ctx_old.nodes@[e as int]->Expr_0 is UnresolvedMemberAccess) ==> r is Ok && *ctx_new == *ctx_old)
}

/// Resolves the names of expression `e`: a name used as a value, the names
/// of a struct or enum initialization, the type of an escape block, and a
/// member access, which becomes what the type of its object makes it.
fn resolve_expr(st: &WalkState, ctx: &mut IrCtx, e: NodeRef) -> (r: Result<(), SymbolResolutionError>)
    requires
        walk_ok(st, old(ctx)),
        is_expr(old(ctx).nodes@, e as int),
    ensures
        resolve_expr_post(final(ctx), old(ctx), st, e, r),
{
    let ghost c0 = *ctx;
    proof { lemma_nodes_compat_refl(ctx.nodes@); }
    let kind: u8 = match &ctx.nodes[e] {
        Node::Expr(Expr::Identifier(_), _) => 0,
        Node::Expr(Expr::StructInit { .. }, _) => 1,
        Node::Expr(Expr::EnumInit { .. }, _) => 2,
        Node::Expr(Expr::UnresolvedMemberAccess { .. }, _) => 3,
        Node::Expr(Expr::EscapeBlock { .. }, _) => 4,
        _ => 5,
    };
    if kind == 0 {
        let id = match &ctx.nodes[e] {
            Node::Expr(Expr::Identifier(id), _) => id.copy(),
            _ => { return unreached(); },
        };
        match resolve_ident(ctx, &st.symbols, &st.defining, &id) {
            Ok(_) => Ok(()),
            Err(e) => Err(e),
        }
    } else if kind == 1 {
        resolve_struct_init(ctx, &st.symbols, e)
    } else if kind == 2 {
        resolve_enum_init(ctx, &st.symbols, e)
    } else if kind == 3 {
        resolve_expr_type(ctx, &st.symbols, e)?;
        let ghost c1 = *ctx;
        proof {
            lemma_zipper_ok_compat(ctx.nodes@, c0.nodes@, arena_items(ctx.symbols), arena_ident(ctx.symbols), st.symbols);
            lemma_kinds_compat(ctx.nodes@, c0.nodes@, e as int);
            assert(node_compat(ctx.nodes@[e as int], c0.nodes@[e as int]));
        }
        let is_member = match &ctx.nodes[e] {
            Node::Expr(Expr::UnresolvedMemberAccess { .. }, _) => true,
            _ => false,
        };
        if !is_member {
            return Ok(());
        }
        let r = resolve_member_access(ctx, &st.symbols, e);
        proof { lemma_resolve_post_trans(ctx, &c1, &c0); }
        r
    } else if kind == 4 {
        resolve_expr_type(ctx, &st.symbols, e)
    } else {
        Ok(())
    }
}

} // verus!
