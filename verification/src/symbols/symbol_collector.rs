use vstd::prelude::*;

use crate::ir::context::IrCtx;
use crate::ir::node::{is_enum, is_expr, is_func, is_stmt, is_struct, is_var, Expr, IdentKey, KeyView, Node, NodeRef, Stmt};
use crate::ir::text::copy_refs;
use crate::ir::types::{builtin_at, builtin_index, builtin_name, BuiltinType, BUILTIN_COUNT};
use crate::parser::stmts_valid;

use super::builtin_types::builtin_types;
use super::symbol_table::{
    has_key, item_key, table_keys_ok,
    arena_ident, arena_items, spec_is_order_dependent, symbol_arena_len, id_arena_ident, id_index, item_ok, symbol_item, symbol_ok, table_ok,
    SymbolCollectionError, SymbolTable, SymbolValueItem,
};

verus! {

/// Files every declaration of a program into a tree of symbol tables: one
/// table per function, struct, enum and struct initialization, nested as in
/// the program.
pub struct SymbolCollector {}

/// The collector only adds symbols.
pub open spec fn collect_post(new: &IrCtx, old: &IrCtx) -> bool {
    &&& new.wf()
    &&& new.nodes@ == old.nodes@
    &&& new.types == old.types
    &&& arena_ident(new.symbols) == arena_ident(old.symbols)
    &&& arena_items(old.symbols).len() <= arena_items(new.symbols).len()
    &&& forall|i: int| 0 <= i < arena_items(old.symbols).len() ==> #[trigger] arena_items(new.symbols)[i] == arena_items(old.symbols)[i]
}

/// A table stays valid when the arena only grows.
pub proof fn lemma_table_ok_grow(new: &IrCtx, old: &IrCtx, t: SymbolTable)
    requires
        collect_post(new, old),
        table_ok(old.nodes@, arena_items(old.symbols), arena_ident(old.symbols), t),
    ensures
        table_ok(new.nodes@, arena_items(new.symbols), arena_ident(new.symbols), t),
    decreases t,
{
    assert forall|i: int| 0 <= i < t.scopes@.len() implies table_ok(new.nodes@, arena_items(new.symbols), arena_ident(new.symbols), (#[trigger] t.scopes@[i]).1) by {
        lemma_table_ok_grow(new, old, t.scopes@[i].1);
    }
    assert forall|i: int| 0 <= i < t.scope_global_table@.len() implies symbol_ok(new.nodes@, arena_items(new.symbols), arena_ident(new.symbols), (#[trigger] t.scope_global_table@[i]).1) by {
        assert(symbol_ok(old.nodes@, arena_items(old.symbols), arena_ident(old.symbols), t.scope_global_table@[i].1));
    }
    assert forall|i: int| 0 <= i < t.ordered_symbols@.len() implies symbol_ok(new.nodes@, arena_items(new.symbols), arena_ident(new.symbols), #[trigger] t.ordered_symbols@[i]) by {
        assert(symbol_ok(old.nodes@, arena_items(old.symbols), arena_ident(old.symbols), t.ordered_symbols@[i]));
    }
}

/// The variables declared by the statements `stmts`, in order.
pub open spec fn var_decls(nodes: Seq<Node>, stmts: Seq<NodeRef>) -> Seq<SymbolValueItem>
    decreases stmts.len(),
{
    if stmts.len() == 0 {
        Seq::empty()
    } else {
        let rest = var_decls(nodes, stmts.drop_last());
        match nodes[stmts.last() as int] {
            Node::Stmt(Stmt::VariableDecl(v), _) => rest.push(SymbolValueItem::VarDecl(v)),
            _ => rest,
        }
    }
}

/// The items of a table's ordered symbols.
pub open spec fn ordered_items(items: Seq<SymbolValueItem>, t: SymbolTable) -> Seq<SymbolValueItem> {
    t.ordered_symbols@.map_values(|s: super::symbol_table::SymbolValue| symbol_item(items, s))
}

/// `b` keeps the entries of `a` in front.
pub open spec fn entries_extend<V>(b: Seq<(IdentKey, V)>, a: Seq<(IdentKey, V)>) -> bool {
    &&& a.len() <= b.len()
    &&& forall|i: int| 0 <= i < a.len() ==> #[trigger] b[i] == a[i]
}

/// The collector's conditions on a table that it fills: its symbols are
/// valid for the context, and no scope of it files a key twice.
pub open spec fn filled_ok(ctx: &IrCtx, t: SymbolTable) -> bool {
    &&& table_ok(ctx.nodes@, arena_items(ctx.symbols), arena_ident(ctx.symbols), t)
    &&& table_keys_ok(t)
}

/// What every filling step keeps of a table: the scope-wide entries in
/// front, and the ordered items.
pub open spec fn filled_keeps(new_ctx: &IrCtx, new: SymbolTable, old_ctx: &IrCtx, old: SymbolTable) -> bool {
    &&& entries_extend(new.scope_global_table@, old.scope_global_table@)
    &&& ordered_items(arena_items(new_ctx.symbols), new) == ordered_items(arena_items(old_ctx.symbols), old)
}

pub proof fn lemma_collect_post_trans(c: &IrCtx, b: &IrCtx, a: &IrCtx)
    requires
        collect_post(c, b),
        collect_post(b, a),
    ensures
        collect_post(c, a),
{
    assert forall|i: int| 0 <= i < arena_items(a.symbols).len() implies #[trigger] arena_items(c.symbols)[i] == arena_items(a.symbols)[i] by {
        assert(arena_items(c.symbols)[i] == arena_items(b.symbols)[i]);
    }
}

/// The ordered items of a table are kept when the arena only grows.
pub proof fn lemma_ordered_items_grow(new: &IrCtx, old: &IrCtx, t: SymbolTable)
    requires
        collect_post(new, old),
        filled_ok(old, t),
    ensures
        ordered_items(arena_items(new.symbols), t) == ordered_items(arena_items(old.symbols), t),
{
    let a = ordered_items(arena_items(new.symbols), t);
    let b = ordered_items(arena_items(old.symbols), t);
    assert forall|k: int| 0 <= k < b.len() implies a[k] == b[k] by {
        assert(symbol_ok(old.nodes@, arena_items(old.symbols), arena_ident(old.symbols), t.ordered_symbols@[k]));
    }
    assert(a =~= b);
}

/// The key that statement `s` declares in its scope's table: that of a
/// function, struct or enum declaration.
pub open spec fn decl_key(nodes: Seq<Node>, s: NodeRef) -> Option<KeyView> {
    match nodes[s as int] {
        Node::Stmt(Stmt::FunctionDecl(f), _) => Some(item_key(nodes, SymbolValueItem::FuncDecl(f))),
        Node::Stmt(Stmt::StructDecl(d), _) => Some(item_key(nodes, SymbolValueItem::StructDecl(d))),
        Node::Stmt(Stmt::EnumDecl(d), _) => Some(item_key(nodes, SymbolValueItem::EnumDecl(d))),
        _ => None,
    }
}

/// Two of the statements `stmts` declare the same key.
pub open spec fn declares_twice(nodes: Seq<Node>, stmts: Seq<NodeRef>) -> bool {
    exists|a: int, b: int|
        0 <= a < b < stmts.len() && decl_key(nodes, #[trigger] stmts[a]) is Some && decl_key(nodes, stmts[a])
            == decl_key(nodes, #[trigger] stmts[b])
}

/// One of the statements `stmts` declares a key that `taken` holds already.
pub open spec fn declares_taken<V>(nodes: Seq<Node>, stmts: Seq<NodeRef>, taken: Seq<(IdentKey, V)>) -> bool {
    exists|b: int| 0 <= b < stmts.len() && (decl_key(nodes, #[trigger] stmts[b]) matches Some(k) && has_key(taken, k))
}

/// One of the statements `stmts` declares the name of a builtin type.
pub open spec fn declares_builtin(nodes: Seq<Node>, stmts: Seq<NodeRef>) -> bool {
    exists|b: int, x: BuiltinType|
        #![trigger stmts[b], builtin_name(x)]
        0 <= b < stmts.len() && decl_key(nodes, stmts[b]) == Some(KeyView::Named(builtin_name(x)))
}

/// Two of the arguments `args` share a name.
pub open spec fn args_twice(args: Seq<crate::ir::node::FunctionArg>) -> bool {
    exists|a: int, b: int| 0 <= a < b < args.len() && (#[trigger] args[a]).name.name@ == (#[trigger] args[b]).name.name@
}

/// Two of the attributes `attrs` share a name.
pub open spec fn attrs_twice(attrs: Seq<crate::ir::node::StructAttr>) -> bool {
    exists|a: int, b: int| 0 <= a < b < attrs.len() && (#[trigger] attrs[a]).name.name@ == (#[trigger] attrs[b]).name.name@
}

/// The keys of the entries `e`, in order.
pub open spec fn keys_of<V>(e: Seq<(IdentKey, V)>) -> Seq<KeyView> {
    Seq::new(e.len(), |i: int| e[i].0@)
}

/// Two of the keys `ks` are the same.
pub open spec fn dup(ks: Seq<KeyView>) -> bool {
    exists|a: int, b: int| 0 <= a < b < ks.len() && ks[a] == ks[b]
}

/// Filing the keys `ks`, one after the other, into a scope that holds `held`
/// meets a key that is there already.
pub open spec fn clash_into(held: Seq<KeyView>, ks: Seq<KeyView>) -> bool {
    dup(ks) || exists|i: int| 0 <= i < ks.len() && held.contains(ks[i])
}

/// What collecting a part of a program does to the scope that it stands
/// in: the keys that it files among the scope's symbols, the keys of the
/// scopes that it files in it, and whether a scope made inside it files a
/// key twice.
pub struct Filing {
    pub symbols: Seq<KeyView>,
    pub scopes: Seq<KeyView>,
    pub clash: bool,
}

/// Nothing filed.
pub open spec fn no_filing() -> Filing {
    Filing { symbols: Seq::empty(), scopes: Seq::empty(), clash: false }
}

/// `a`, then `b`.
pub open spec fn then(a: Filing, b: Filing) -> Filing {
    Filing { symbols: a.symbols + b.symbols, scopes: a.scopes + b.scopes, clash: a.clash || b.clash }
}

/// Filing `f` into a scope whose symbols have the keys `syms` and whose
/// scopes have the keys `scopes` succeeds.
pub open spec fn fits(syms: Seq<KeyView>, scopes: Seq<KeyView>, f: Filing) -> bool {
    !clash_into(syms, f.symbols) && !clash_into(scopes, f.scopes) && !f.clash
}

/// A declaration filed under `k`, with a scope of its own under `k` in
/// which `clash` tells whether a key is filed twice.
pub open spec fn declared_filing(k: KeyView, clash: bool) -> Filing {
    Filing { symbols: seq![k], scopes: seq![k], clash }
}

/// What the expression at node `e` files.
pub open spec fn filing_expr(nodes: Seq<Node>, e: NodeRef) -> Filing
    decreases e, 1nat, 0nat,
{
    if 0 <= e < nodes.len() {
        match nodes[e as int] {
            Node::Expr(x, _) => match x {
                Expr::Tuple(items) => filing_exprs(nodes, items@, e),
                Expr::EnumInit { items, .. } => filing_exprs(nodes, items@, e),
                Expr::TupleAccess { tuple_expr: y, .. } => if y < e {
                    filing_expr(nodes, y)
                } else {
                    no_filing()
                },
                Expr::StructAccess { struct_expr: y, .. } => if y < e {
                    filing_expr(nodes, y)
                } else {
                    no_filing()
                },
                Expr::FunctionCall { func, params } => then(
                    if func < e {
                        filing_expr(nodes, func)
                    } else {
                        no_filing()
                    },
                    filing_exprs(nodes, params@, e),
                ),
                Expr::MethodCall { struct_expr, params, .. } => then(
                    if struct_expr < e {
                        filing_expr(nodes, struct_expr)
                    } else {
                        no_filing()
                    },
                    filing_exprs(nodes, params@, e),
                ),
                Expr::Function(f) => if f < e {
                    declared_filing(item_key(nodes, SymbolValueItem::FuncDecl(f)), func_clashes(nodes, f))
                } else {
                    no_filing()
                },
                Expr::StructInit { values, .. } => {
                    let inner = filing_values(nodes, values@, e);
                    Filing {
                        symbols: Seq::empty(),
                        scopes: seq![KeyView::Anonymous(e)],
                        clash: !fits(seq![item_key(nodes, SymbolValueItem::StructInit(e))], Seq::empty(), inner),
                    }
                },
                Expr::UnresolvedMemberAccess { object, items, .. } => then(
                    match object {
                        Some(o) => if o < e {
                            filing_expr(nodes, o)
                        } else {
                            no_filing()
                        },
                        None => no_filing(),
                    },
                    match items {
                        Some(v) => filing_exprs(nodes, v@, e),
                        None => no_filing(),
                    },
                ),
                Expr::Assignment { lhs, rhs } => then(
                    if lhs < e {
                        filing_expr(nodes, lhs)
                    } else {
                        no_filing()
                    },
                    if rhs < e {
                        filing_expr(nodes, rhs)
                    } else {
                        no_filing()
                    },
                ),
                _ => no_filing(),
            },
            _ => no_filing(),
        }
    } else {
        no_filing()
    }
}

/// What the expressions `es`, all before node `bound`, file, one after the
/// other.
pub open spec fn filing_exprs(nodes: Seq<Node>, es: Seq<NodeRef>, bound: NodeRef) -> Filing
    decreases bound, 0nat, es.len(),
{
    if es.len() == 0 {
        no_filing()
    } else {
        then(
            filing_exprs(nodes, es.drop_last(), bound),
            if es.last() < bound {
                filing_expr(nodes, es.last())
            } else {
                no_filing()
            },
        )
    }
}

/// What the values of a struct initialization at node `bound` file.
pub open spec fn filing_values(nodes: Seq<Node>, vs: Seq<crate::ir::node::StructInitValue>, bound: NodeRef) -> Filing
    decreases bound, 0nat, vs.len(),
{
    if vs.len() == 0 {
        no_filing()
    } else {
        then(
            filing_values(nodes, vs.drop_last(), bound),
            if vs.last().value < bound {
                filing_expr(nodes, vs.last().value)
            } else {
                no_filing()
            },
        )
    }
}

/// The scope of the function at node `f` (its arguments, then what its
/// body files) files a key twice.
pub open spec fn func_clashes(nodes: Seq<Node>, f: NodeRef) -> bool
    decreases f, 1nat, 0nat,
{
    if 0 <= f < nodes.len() {
        match nodes[f as int] {
            Node::Function(fun, _) => {
                let body = filing_stmts(nodes, fun.body@, f);
                !fits(
                    Seq::empty(),
                    Seq::empty(),
                    Filing {
                        symbols: Seq::new(fun.args@.len(), |k: int| KeyView::Named(fun.args@[k].name.name@)) + body.symbols,
                        scopes: body.scopes,
                        clash: body.clash,
                    },
                )
            },
            _ => false,
        }
    } else {
        false
    }
}

/// What the first `n` attributes of the struct at node `d` file in its
/// scope: each attribute's name, then what its default value files.
pub open spec fn filing_attrs(nodes: Seq<Node>, d: NodeRef, n: nat) -> Filing
    decreases d, 0nat, n,
{
    if n == 0 || !(0 <= d < nodes.len()) || !(nodes[d as int] is Struct) {
        no_filing()
    } else {
        let attrs = nodes[d as int]->Struct_0.attrs@;
        let k = n - 1;
        then(
            filing_attrs(nodes, d, (n - 1) as nat),
            if k < attrs.len() {
                then(
                    Filing { symbols: seq![KeyView::Named(attrs[k].name.name@)], scopes: Seq::empty(), clash: false },
                    match attrs[k].default_value {
                        Some(x) => if x < d {
                            filing_expr(nodes, x)
                        } else {
                            no_filing()
                        },
                        None => no_filing(),
                    },
                )
            } else {
                no_filing()
            },
        )
    }
}

/// The scope of the struct at node `d` files a key twice.
pub open spec fn struct_clashes(nodes: Seq<Node>, d: NodeRef) -> bool
    decreases d, 1nat, 0nat,
{
    if 0 <= d < nodes.len() && nodes[d as int] is Struct {
        !fits(Seq::empty(), Seq::empty(), filing_attrs(nodes, d, nodes[d as int]->Struct_0.attrs@.len()))
    } else {
        false
    }
}

/// What the statement at node `s` files.
pub open spec fn filing_stmt(nodes: Seq<Node>, s: NodeRef) -> Filing
    decreases s, 1nat, 0nat,
{
    if 0 <= s < nodes.len() {
        match nodes[s as int] {
            Node::Stmt(Stmt::VariableDecl(v), _) => if v < s && 0 <= v < nodes.len() {
                match nodes[v as int] {
                    Node::VarDecl(d) => if d.value < v {
                        filing_expr(nodes, d.value)
                    } else {
                        no_filing()
                    },
                    _ => no_filing(),
                }
            } else {
                no_filing()
            },
            Node::Stmt(Stmt::FunctionDecl(f), _) => if f < s {
                declared_filing(item_key(nodes, SymbolValueItem::FuncDecl(f)), func_clashes(nodes, f))
            } else {
                no_filing()
            },
            Node::Stmt(Stmt::StructDecl(d), _) => if d < s {
                declared_filing(item_key(nodes, SymbolValueItem::StructDecl(d)), struct_clashes(nodes, d))
            } else {
                no_filing()
            },
            Node::Stmt(Stmt::EnumDecl(d), _) => declared_filing(item_key(nodes, SymbolValueItem::EnumDecl(d)), false),
            Node::Stmt(Stmt::Expression(e), _) => if e < s {
                filing_expr(nodes, e)
            } else {
                no_filing()
            },
            Node::Stmt(Stmt::Return(e), _) => if e < s {
                filing_expr(nodes, e)
            } else {
                no_filing()
            },
            _ => no_filing(),
        }
    } else {
        no_filing()
    }
}

/// What the statements `ss`, all before node `bound`, file, one after the
/// other.
pub open spec fn filing_stmts(nodes: Seq<Node>, ss: Seq<NodeRef>, bound: NodeRef) -> Filing
    decreases bound, 0nat, ss.len(),
{
    if ss.len() == 0 {
        no_filing()
    } else {
        then(
            filing_stmts(nodes, ss.drop_last(), bound),
            if ss.last() < bound {
                filing_stmt(nodes, ss.last())
            } else {
                no_filing()
            },
        )
    }
}

/// Filing `a` then `b` fits exactly when `a` fits and `b` fits after it.
pub proof fn lemma_fits_then(syms: Seq<KeyView>, scopes: Seq<KeyView>, a: Filing, b: Filing)
    ensures
        fits(syms, scopes, then(a, b)) == (fits(syms, scopes, a) && fits(syms + a.symbols, scopes + a.scopes, b)),
{
    lemma_clash_into_concat(syms, a.symbols, b.symbols);
    lemma_clash_into_concat(scopes, a.scopes, b.scopes);
}

/// Filing `a + b` meets a key twice exactly when filing `a` does, or
/// filing `b` after it does.
pub proof fn lemma_clash_into_concat(held: Seq<KeyView>, a: Seq<KeyView>, b: Seq<KeyView>)
    ensures
        clash_into(held, a + b) == (clash_into(held, a) || clash_into(held + a, b)),
{
    let ab = a + b;
    let ha = held + a;
    if clash_into(held, ab) {
        if dup(ab) {
            let (x, y) = choose|x: int, y: int| 0 <= x < y < ab.len() && ab[x] == ab[y];
            if y < a.len() {
                assert(a[x] == ab[x] && a[y] == ab[y]);
                assert(dup(a));
            } else if x >= a.len() {
                assert(b[x - a.len()] == ab[x] && b[y - a.len()] == ab[y]);
                assert(dup(b));
            } else {
                assert(ha[held.len() + x] == a[x]);
                assert(ha.contains(b[y - a.len()]));
            }
        } else {
            let i = choose|i: int| 0 <= i < ab.len() && held.contains(ab[i]);
            let j = choose|j: int| 0 <= j < held.len() && held[j] == ab[i];
            if i < a.len() {
                assert(a[i] == ab[i]);
            } else {
                assert(ha[j] == held[j]);
                assert(ha.contains(b[i - a.len()]));
            }
        }
    }
    if clash_into(held, a) {
        if dup(a) {
            let (x, y) = choose|x: int, y: int| 0 <= x < y < a.len() && a[x] == a[y];
            assert(ab[x] == a[x] && ab[y] == a[y]);
            assert(dup(ab));
        } else {
            let i = choose|i: int| 0 <= i < a.len() && held.contains(a[i]);
            assert(ab[i] == a[i]);
        }
    }
    if clash_into(ha, b) {
        if dup(b) {
            let (x, y) = choose|x: int, y: int| 0 <= x < y < b.len() && b[x] == b[y];
            assert(ab[a.len() + x] == b[x] && ab[a.len() + y] == b[y]);
            assert(dup(ab));
        } else {
            let i = choose|i: int| 0 <= i < b.len() && ha.contains(b[i]);
            let j = choose|j: int| 0 <= j < ha.len() && ha[j] == b[i];
            assert(ab[a.len() + i] == b[i]);
            if j < held.len() {
                assert(held[j] == ha[j]);
                assert(held.contains(ab[a.len() + i]));
            } else {
                assert(ab[j - held.len()] == a[j - held.len()]);
                assert(dup(ab));
            }
        }
    }
}

/// Collecting with result `r`, from table `old` to table `new`, filed `f`:
/// it succeeded exactly when `f` fits in `old`, and then `new` holds what
/// `old` held followed by the keys of `f`.
pub open spec fn files(old: SymbolTable, new: SymbolTable, r: Result<(), SymbolCollectionError>, f: Filing) -> bool {
    &&& (r is Ok <==> fits(keys_of(old.scope_global_table@), keys_of(old.scopes@), f))
    &&& (r is Ok ==> keys_of(new.scope_global_table@) == keys_of(old.scope_global_table@) + f.symbols
        && keys_of(new.scopes@) == keys_of(old.scopes@) + f.scopes)
}

/// Filing `a` with success, then `b`, files `a` then `b`.
pub proof fn lemma_files_then(
    t0: SymbolTable,
    t1: SymbolTable,
    t2: SymbolTable,
    r: Result<(), SymbolCollectionError>,
    a: Filing,
    b: Filing,
)
    requires
        files(t0, t1, Ok(()), a),
        files(t1, t2, r, b),
    ensures
        files(t0, t2, r, then(a, b)),
{
    lemma_fits_then(keys_of(t0.scope_global_table@), keys_of(t0.scopes@), a, b);
    if r is Ok {
        assert(keys_of(t2.scope_global_table@) =~= keys_of(t0.scope_global_table@) + then(a, b).symbols);
        assert(keys_of(t2.scopes@) =~= keys_of(t0.scopes@) + then(a, b).scopes);
    }
}

/// A filing that fails makes every filing that starts with it fail.
pub proof fn lemma_files_fail_then(t0: SymbolTable, t1: SymbolTable, e: SymbolCollectionError, a: Filing, b: Filing)
    requires
        files(t0, t1, Err(e), a),
    ensures
        files(t0, t1, Err(e), then(a, b)),
{
    lemma_fits_then(keys_of(t0.scope_global_table@), keys_of(t0.scopes@), a, b);
}

/// Nothing filed leaves the table's keys as they are.
pub proof fn lemma_files_none(t: SymbolTable, u: SymbolTable)
    requires
        t.scope_global_table@ == u.scope_global_table@,
        t.scopes@ == u.scopes@,
    ensures
        files(t, u, Ok(()), no_filing()),
{
    assert(keys_of(t.scope_global_table@) + no_filing().symbols =~= keys_of(t.scope_global_table@));
    assert(keys_of(t.scopes@) + no_filing().scopes =~= keys_of(t.scopes@));
    assert(!dup(no_filing().symbols));
    assert(!dup(no_filing().scopes));
}

/// When a prefix of the expressions `es` fails to fit, so do all of them.
pub proof fn lemma_exprs_prefix_fail(
    nodes: Seq<Node>,
    es: Seq<NodeRef>,
    bound: NodeRef,
    i: int,
    syms: Seq<KeyView>,
    scopes: Seq<KeyView>,
)
    requires
        0 <= i <= es.len(),
        !fits(syms, scopes, filing_exprs(nodes, es.take(i), bound)),
    ensures
        !fits(syms, scopes, filing_exprs(nodes, es, bound)),
    decreases es.len() - i,
{
    if i < es.len() {
        let t = es.take(i + 1);
        assert(t.drop_last() =~= es.take(i));
        lemma_fits_then(
            syms,
            scopes,
            filing_exprs(nodes, t.drop_last(), bound),
            if t.last() < bound {
                filing_expr(nodes, t.last())
            } else {
                no_filing()
            },
        );
        lemma_exprs_prefix_fail(nodes, es, bound, i + 1, syms, scopes);
    } else {
        assert(es.take(i) =~= es);
    }
}

/// When a prefix of the statements `ss` fails to fit, so do all of them.
pub proof fn lemma_stmts_prefix_fail(
    nodes: Seq<Node>,
    ss: Seq<NodeRef>,
    bound: NodeRef,
    i: int,
    syms: Seq<KeyView>,
    scopes: Seq<KeyView>,
)
    requires
        0 <= i <= ss.len(),
        !fits(syms, scopes, filing_stmts(nodes, ss.take(i), bound)),
    ensures
        !fits(syms, scopes, filing_stmts(nodes, ss, bound)),
    decreases ss.len() - i,
{
    if i < ss.len() {
        let t = ss.take(i + 1);
        assert(t.drop_last() =~= ss.take(i));
        lemma_fits_then(
            syms,
            scopes,
            filing_stmts(nodes, t.drop_last(), bound),
            if t.last() < bound {
                filing_stmt(nodes, t.last())
            } else {
                no_filing()
            },
        );
        lemma_stmts_prefix_fail(nodes, ss, bound, i + 1, syms, scopes);
    } else {
        assert(ss.take(i) =~= ss);
    }
}

/// The values of a struct initialization file what their expressions do.
pub proof fn lemma_filing_values(nodes: Seq<Node>, vs: Seq<crate::ir::node::StructInitValue>, es: Seq<NodeRef>, bound: NodeRef)
    requires
        vs.len() == es.len(),
        forall|k: int| 0 <= k < vs.len() ==> #[trigger] es[k] == vs[k].value,
    ensures
        filing_values(nodes, vs, bound) == filing_exprs(nodes, es, bound),
    decreases vs.len(),
{
    if vs.len() > 0 {
        lemma_filing_values(nodes, vs.drop_last(), es.drop_last(), bound);
        assert(es.last() == vs.last().value);
    }
}

/// A declaration fits where neither its key nor its scope's key is
/// filed yet and its own scope files no key twice.
pub proof fn lemma_fits_declared(syms: Seq<KeyView>, scopes: Seq<KeyView>, k: KeyView, c: bool)
    ensures
        fits(syms, scopes, declared_filing(k, c)) == (!syms.contains(k) && !scopes.contains(k) && !c),
{
    let one = seq![k];
    assert(!dup(one));
    if syms.contains(k) {
        assert(one[0] == k);
    }
    if scopes.contains(k) {
        assert(one[0] == k);
    }
}

/// Filing a declaration's symbol, then (when its own scope files no key
/// twice) its scope, files the declaration.
pub proof fn lemma_files_declared(
    t0: SymbolTable,
    t1: SymbolTable,
    t2: SymbolTable,
    k: KeyView,
    c: bool,
    r: Result<(), SymbolCollectionError>,
)
    requires
        !keys_of(t0.scope_global_table@).contains(k),
        keys_of(t1.scope_global_table@) == keys_of(t0.scope_global_table@).push(k),
        t1.scopes@ == t0.scopes@,
        !c,
        r is Ok <==> !keys_of(t1.scopes@).contains(k),
        r is Ok ==> keys_of(t2.scopes@) == keys_of(t1.scopes@).push(k),
        r is Ok ==> t2.scope_global_table@ == t1.scope_global_table@,
    ensures
        files(t0, t2, r, declared_filing(k, c)),
{
    lemma_fits_declared(keys_of(t0.scope_global_table@), keys_of(t0.scopes@), k, c);
    assert(keys_of(t0.scope_global_table@).push(k) =~= keys_of(t0.scope_global_table@) + seq![k]);
    assert(keys_of(t0.scopes@).push(k) =~= keys_of(t0.scopes@) + seq![k]);
}

/// Filing one symbol under `k`.
pub proof fn lemma_files_symbol(t0: SymbolTable, t1: SymbolTable, k: KeyView, r: Result<(), SymbolCollectionError>)
    requires
        r is Ok <==> !keys_of(t0.scope_global_table@).contains(k),
        r is Ok ==> keys_of(t1.scope_global_table@) == keys_of(t0.scope_global_table@).push(k) && t1.scopes@ == t0.scopes@,
    ensures
        files(t0, t1, r, Filing { symbols: seq![k], scopes: Seq::empty(), clash: false }),
{
    let f = Filing { symbols: seq![k], scopes: Seq::empty(), clash: false };
    assert(!dup(f.symbols));
    assert(!dup(f.scopes));
    if keys_of(t0.scope_global_table@).contains(k) {
        assert(f.symbols[0] == k);
    }
    assert(keys_of(t0.scope_global_table@).push(k) =~= keys_of(t0.scope_global_table@) + f.symbols);
    assert(keys_of(t0.scopes@) + f.scopes =~= keys_of(t0.scopes@));
}

/// When the first `j` attributes of a struct fail to fit, so do the first
/// `n`, for `j <= n`.
pub proof fn lemma_attrs_prefix_fail(
    nodes: Seq<Node>,
    d: NodeRef,
    j: nat,
    n: nat,
    syms: Seq<KeyView>,
    scopes: Seq<KeyView>,
)
    requires
        j <= n,
        !fits(syms, scopes, filing_attrs(nodes, d, j)),
    ensures
        !fits(syms, scopes, filing_attrs(nodes, d, n)),
    decreases n - j,
{
    if j < n {
        let attrs = nodes[d as int]->Struct_0.attrs@;
        let k = j as int;
        if 0 <= d < nodes.len() && nodes[d as int] is Struct {
            lemma_fits_then(
                syms,
                scopes,
                filing_attrs(nodes, d, j),
                if k < attrs.len() {
                    then(
                        Filing { symbols: seq![KeyView::Named(attrs[k].name.name@)], scopes: Seq::empty(), clash: false },
                        match attrs[k].default_value {
                            Some(x) => if x < d {
                                filing_expr(nodes, x)
                            } else {
                                no_filing()
                            },
                            None => no_filing(),
                        },
                    )
                } else {
                    no_filing()
                },
            );
        }
        lemma_attrs_prefix_fail(nodes, d, j + 1, n, syms, scopes);
    }
}

/// Filing a scope of one's own under `k`, in which `clash` tells whether a
/// key is filed twice.
pub proof fn lemma_files_scope(t0: SymbolTable, t2: SymbolTable, k: KeyView, c: bool, r: Result<(), SymbolCollectionError>)
    requires
        !c,
        r is Ok <==> !keys_of(t0.scopes@).contains(k),
        r is Ok ==> keys_of(t2.scopes@) == keys_of(t0.scopes@).push(k) && t2.scope_global_table@ == t0.scope_global_table@,
    ensures
        files(t0, t2, r, Filing { symbols: Seq::empty(), scopes: seq![k], clash: c }),
{
    let f = Filing { symbols: Seq::<KeyView>::empty(), scopes: seq![k], clash: c };
    assert(!dup(f.symbols));
    assert(!dup(f.scopes));
    if keys_of(t0.scopes@).contains(k) {
        assert(f.scopes[0] == k);
    }
    assert(keys_of(t0.scopes@).push(k) =~= keys_of(t0.scopes@) + f.scopes);
    assert(keys_of(t0.scope_global_table@) + f.symbols =~= keys_of(t0.scope_global_table@));
}

/// A key is among an entry list's keys exactly when an entry has it.
pub proof fn lemma_keys_of_has<V>(e: Seq<(IdentKey, V)>, k: KeyView)
    ensures
        keys_of(e).contains(k) == has_key(e, k),
{
    if has_key(e, k) {
        let i = choose|i: int| 0 <= i < e.len() && (#[trigger] e[i]).0@ == k;
        assert(keys_of(e)[i] == k);
    }
}

/// Keys stay when entries are only added.
pub proof fn lemma_has_key_extends<V>(b: Seq<(IdentKey, V)>, a: Seq<(IdentKey, V)>, k: KeyView)
    requires
        entries_extend(b, a),
        has_key(a, k),
    ensures
        has_key(b, k),
{
    let i = choose|i: int| 0 <= i < a.len() && (#[trigger] a[i]).0@ == k;
    assert(b[i] == a[i]);
}

/// Allocates a symbol for `item` and files it in `table`.
fn file_symbol(table: &mut SymbolTable, ctx: &mut IrCtx, item: SymbolValueItem) -> (r: Result<(), SymbolCollectionError>)
    requires
        old(ctx).wf(),
        item_ok(old(ctx).nodes@, item),
        filled_ok(old(ctx), *old(table)),
    ensures
        collect_post(final(ctx), old(ctx)),
        filled_ok(final(ctx), *final(table)),
        final(table).scopes@ == old(table).scopes@,
        entries_extend(final(table).scope_global_table@, old(table).scope_global_table@),
        item is VarDecl ==> r is Ok && ordered_items(arena_items(final(ctx).symbols), *final(table))
            == ordered_items(arena_items(old(ctx).symbols), *old(table)).push(item),
        !(item is VarDecl) ==> ordered_items(arena_items(final(ctx).symbols), *final(table))
            == ordered_items(arena_items(old(ctx).symbols), *old(table)),
        !(item is VarDecl) && has_key(old(table).scope_global_table@, item_key(old(ctx).nodes@, item)) ==> r is Err,
        !(item is VarDecl) && r is Ok ==> has_key(final(table).scope_global_table@, item_key(old(ctx).nodes@, item)),
        !(item is VarDecl) && !has_key(old(table).scope_global_table@, item_key(old(ctx).nodes@, item)) ==> {
            &&& r is Ok
            &&& final(table).scope_global_table@.len() == old(table).scope_global_table@.len() + 1
            &&& final(table).scope_global_table@.last().0@ == item_key(old(ctx).nodes@, item)
            &&& symbol_item(arena_items(final(ctx).symbols), final(table).scope_global_table@.last().1) == item
        },
        item is VarDecl ==> final(table).scope_global_table@ == old(table).scope_global_table@,
        !(item is VarDecl) ==> (r is Ok <==> !keys_of(old(table).scope_global_table@).contains(item_key(old(ctx).nodes@, item))),
        !(item is VarDecl) && r is Ok ==> keys_of(final(table).scope_global_table@) == keys_of(old(table).scope_global_table@).push(
            item_key(old(ctx).nodes@, item),
        ),
{
    let _n = symbol_arena_len(&ctx.symbols);
    let ghost t0 = *table;
    let ghost c0 = *ctx;
    let r = table.insert(ctx, item);
    proof {
        lemma_table_ok_grow(ctx, &c0, t0);
        let items = arena_items(ctx.symbols);
        assert(items.len() == arena_items(c0.symbols).len() + 1);
        assert(items.last() == item);
        if r is Ok {
            let s = r->Ok_0;
            assert(symbol_ok(ctx.nodes@, items, arena_ident(ctx.symbols), s));
        }
        assert forall|i: int| 0 <= i < table.scope_global_table@.len() implies symbol_ok(ctx.nodes@, items, arena_ident(ctx.symbols), (#[trigger] table.scope_global_table@[i]).1) by {
            if i < t0.scope_global_table@.len() {
                assert(table.scope_global_table@[i] == t0.scope_global_table@[i]);
            }
        }
        assert forall|i: int| 0 <= i < table.ordered_symbols@.len() implies symbol_ok(ctx.nodes@, items, arena_ident(ctx.symbols), #[trigger] table.ordered_symbols@[i]) by {
            if i < t0.ordered_symbols@.len() {
                assert(table.ordered_symbols@[i] == t0.ordered_symbols@[i]);
            }
        }
        assert forall|i: int| 0 <= i < table.scopes@.len() implies table_ok(ctx.nodes@, items, arena_ident(ctx.symbols), (#[trigger] table.scopes@[i]).1) by {
            assert(table.scopes@[i] == t0.scopes@[i]);
        }
        assert forall|i: int| 0 <= i < t0.scope_global_table@.len() implies #[trigger] table.scope_global_table@[i] == t0.scope_global_table@[i] by {
            if !spec_is_order_dependent(item) && r is Ok {
                assert(table.scope_global_table@.drop_last()[i] == t0.scope_global_table@[i]);
            }
        }
        let o0 = ordered_items(arena_items(c0.symbols), t0);
        let o1 = ordered_items(items, *table);
        assert forall|k: int| 0 <= k < o0.len() implies o1[k] == o0[k] by {
            assert(table.ordered_symbols@[k] == t0.ordered_symbols@[k]);
            assert(symbol_ok(c0.nodes@, arena_items(c0.symbols), arena_ident(c0.symbols), t0.ordered_symbols@[k]));
        }
        if item is VarDecl {
            assert(o1 =~= o0.push(item));
        } else {
            assert(o1 =~= o0);
        }
    }
    proof {
        lemma_keys_of_has(t0.scope_global_table@, item_key(c0.nodes@, item));
        if !(item is VarDecl) && r is Ok {
            assert(keys_of(table.scope_global_table@) =~= keys_of(t0.scope_global_table@).push(item_key(c0.nodes@, item)));
        }
    }
    match r {
        Ok(_) => Ok(()),
        Err(e) => Err(e),
    }
}

/// Files `child` in `parent` under `key`.
fn file_scope(parent: &mut SymbolTable, ctx: &IrCtx, key: IdentKey, child: SymbolTable) -> (r: Result<(), SymbolCollectionError>)
    requires
        filled_ok(ctx, *old(parent)),
        filled_ok(ctx, child),
    ensures
        filled_ok(ctx, *final(parent)),
        final(parent).scope_global_table@ == old(parent).scope_global_table@,
        final(parent).ordered_symbols@ == old(parent).ordered_symbols@,
        r is Ok <==> !keys_of(old(parent).scopes@).contains(key@),
        r is Ok ==> keys_of(final(parent).scopes@) == keys_of(old(parent).scopes@).push(key@),
{
    let ghost p0 = *parent;
    let ghost k = key@;
    let r = parent.insert_scope(key, child);
    proof {
        lemma_keys_of_has(p0.scopes@, k);
        if r is Ok {
            assert(keys_of(parent.scopes@) =~= keys_of(p0.scopes@).push(k));
        }
        assert forall|i: int| 0 <= i < parent.scopes@.len() implies table_ok(ctx.nodes@, arena_items(ctx.symbols), arena_ident(ctx.symbols), (#[trigger] parent.scopes@[i]).1) by {
            if i < p0.scopes@.len() {
                assert(parent.scopes@[i] == p0.scopes@[i]);
            }
        }
    }
    r
}

/// The scope-wide entries, ordered items and validity of a table are kept
/// when the arena grows and the table itself is left alone.
pub proof fn lemma_untouched(new: &IrCtx, old: &IrCtx, t: SymbolTable)
    requires
        collect_post(new, old),
        filled_ok(old, t),
    ensures
        filled_ok(new, t),
        filled_keeps(new, t, old, t),
{
    lemma_table_ok_grow(new, old, t);
    lemma_ordered_items_grow(new, old, t);
}

/// Files the symbols of the statements `stmts`, all before node `bound`.
#[verifier::loop_isolation(false)]
#[verifier::rlimit(60)]
fn collect_stmts(ctx: &mut IrCtx, table: &mut SymbolTable, stmts: &Vec<NodeRef>, bound: usize) -> (r: Result<(), SymbolCollectionError>)
    requires
        old(ctx).wf(),
        forall|k: int| 0 <= k < stmts@.len() ==> #[trigger] stmts@[k] < bound && is_stmt(old(ctx).nodes@, stmts@[k] as int),
        filled_ok(old(ctx), *old(table)),
    ensures
        collect_post(final(ctx), old(ctx)),
        r is Ok ==> filled_ok(final(ctx), *final(table)),
        r is Ok ==> entries_extend(final(table).scope_global_table@, old(table).scope_global_table@),
        r is Ok ==> ordered_items(arena_items(final(ctx).symbols), *final(table))
            == ordered_items(arena_items(old(ctx).symbols), *old(table)) + var_decls(old(ctx).nodes@, stmts@),
        declares_twice(old(ctx).nodes@, stmts@) || declares_taken(old(ctx).nodes@, stmts@, old(table).scope_global_table@)
            ==> r is Err,
        files(*old(table), *final(table), r, filing_stmts(old(ctx).nodes@, stmts@, bound)),
    decreases bound, 0nat,
{
    let ghost c0 = *ctx;
    let ghost t0 = *table;
    proof {
        assert(stmts@.take(0) =~= Seq::<NodeRef>::empty());
        lemma_files_none(t0, t0);
    }
    let mut i: usize = 0;
    while i < stmts.len()
        invariant
            i <= stmts@.len(),
            ctx.wf(),
            collect_post(ctx, &c0),
            forall|k: int| 0 <= k < stmts@.len() ==> #[trigger] stmts@[k] < bound && is_stmt(c0.nodes@, stmts@[k] as int),
            filled_ok(ctx, *table),
            entries_extend(table.scope_global_table@, t0.scope_global_table@),
            ordered_items(arena_items(ctx.symbols), *table)
                == ordered_items(arena_items(c0.symbols), t0) + var_decls(c0.nodes@, stmts@.take(i as int)),
            forall|m: int| 0 <= m < i ==> (decl_key(c0.nodes@, #[trigger] stmts@[m]) matches Some(k) ==> has_key(
                table.scope_global_table@, k)),
            !declares_twice(c0.nodes@, stmts@.take(i as int)),
            !declares_taken(c0.nodes@, stmts@.take(i as int), t0.scope_global_table@),
            files(t0, *table, Ok(()), filing_stmts(c0.nodes@, stmts@.take(i as int), bound)),
        decreases stmts@.len() - i,
    {
        let ghost c1 = *ctx;
        let ghost t1 = *table;
        let ghost prefix = stmts@.take(i as int);
        proof {
            assert(stmts@.take(i + 1).drop_last() =~= prefix);
            assert(stmts@.take(i + 1).last() == stmts@[i as int]);
        }
        let rs = collect_stmt(ctx, table, stmts[i]);
        proof {
            lemma_files_then(t0, t1, *table, rs, filing_stmts(c0.nodes@, prefix, bound), filing_stmt(c0.nodes@, stmts@[i as int]));
        }
        match rs {
            Ok(_) => {},
            Err(e) => {
                proof {
                    lemma_stmts_prefix_fail(c0.nodes@, stmts@, bound, i + 1, keys_of(t0.scope_global_table@), keys_of(t0.scopes@));
                }
                return Err(e);
            },
        }
        proof {
            let si = stmts@[i as int];
            let next = stmts@.take(i + 1);
            assert(next =~= prefix.push(si));
            assert forall|m: int| 0 <= m <= i implies (decl_key(c0.nodes@, #[trigger] stmts@[m]) matches Some(k) ==> has_key(
                table.scope_global_table@, k)) by {
                if m < i {
                    if let Some(k) = decl_key(c0.nodes@, stmts@[m]) {
                        lemma_has_key_extends(table.scope_global_table@, t1.scope_global_table@, k);
                    }
                }
            }
            if let Some(k) = decl_key(c0.nodes@, si) {
                assert(!has_key(t1.scope_global_table@, k));
                assert forall|m: int| 0 <= m < i implies decl_key(c0.nodes@, #[trigger] stmts@[m]) != Some(k) by {
                    if decl_key(c0.nodes@, stmts@[m]) == Some(k) {
                        assert(has_key(t1.scope_global_table@, k));
                    }
                }
                if has_key(t0.scope_global_table@, k) {
                    lemma_has_key_extends(t1.scope_global_table@, t0.scope_global_table@, k);
                }
            }
            assert(!declares_twice(c0.nodes@, next)) by {
                if declares_twice(c0.nodes@, next) {
                    let (a, b) = choose|a: int, b: int|
                        0 <= a < b < next.len() && decl_key(c0.nodes@, #[trigger] next[a]) is Some && decl_key(c0.nodes@, next[a])
                            == decl_key(c0.nodes@, #[trigger] next[b]);
                    if b < i {
                        assert(prefix[a] == next[a] && prefix[b] == next[b]);
                        assert(declares_twice(c0.nodes@, prefix));
                    } else {
                        assert(next[a] == stmts@[a]);
                    }
                }
            }
            assert(!declares_taken(c0.nodes@, next, t0.scope_global_table@)) by {
                if declares_taken(c0.nodes@, next, t0.scope_global_table@) {
                    let b = choose|b: int| 0 <= b < next.len() && (decl_key(c0.nodes@, #[trigger] next[b]) matches Some(k)
                        && has_key(t0.scope_global_table@, k));
                    if b < i {
                        assert(prefix[b] == next[b]);
                        assert(declares_taken(c0.nodes@, prefix, t0.scope_global_table@));
                    }
                }
            }
            lemma_collect_post_trans(ctx, &c1, &c0);
            assert(stmts@.take(i + 1).drop_last() =~= stmts@.take(i as int));
            assert(stmts@.take(i + 1).last() == stmts@[i as int]);
            assert forall|k: int| 0 <= k < t0.scope_global_table@.len() implies #[trigger] table.scope_global_table@[k] == t0.scope_global_table@[k] by {
                assert(t1.scope_global_table@[k] == t0.scope_global_table@[k]);
            }
        }
        i = i + 1;
    }
    assert(stmts@.take(stmts@.len() as int) =~= stmts@);
    Ok(())
}

/// The ordered items that statement `s` adds to its scope.
pub open spec fn stmt_var_decls(nodes: Seq<Node>, s: NodeRef) -> Seq<SymbolValueItem> {
    match nodes[s as int] {
        Node::Stmt(Stmt::VariableDecl(v), _) => seq![SymbolValueItem::VarDecl(v)],
        _ => Seq::empty(),
    }
}

/// Files the symbols of statement `s`.
fn collect_stmt(ctx: &mut IrCtx, table: &mut SymbolTable, s: NodeRef) -> (r: Result<(), SymbolCollectionError>)
    requires
        old(ctx).wf(),
        is_stmt(old(ctx).nodes@, s as int),
        filled_ok(old(ctx), *old(table)),
    ensures
        collect_post(final(ctx), old(ctx)),
        r is Ok ==> filled_ok(final(ctx), *final(table)),
        r is Ok ==> entries_extend(final(table).scope_global_table@, old(table).scope_global_table@),
        r is Ok ==> ordered_items(arena_items(final(ctx).symbols), *final(table))
            == ordered_items(arena_items(old(ctx).symbols), *old(table)) + stmt_var_decls(old(ctx).nodes@, s),
        decl_key(old(ctx).nodes@, s) matches Some(k) ==> ((has_key(old(table).scope_global_table@, k) ==> r is Err) && (
        r is Ok ==> has_key(final(table).scope_global_table@, k))),
        files(*old(table), *final(table), r, filing_stmt(old(ctx).nodes@, s)),
    decreases s, 1nat,
{
    let ghost c0 = *ctx;
    let ghost t0 = *table;
    proof {
        assert(crate::ir::node::node_ok(ctx.nodes@, s as int, ctx.types.types@.len() as int));
    }
    let st = match &ctx.nodes[s] {
        Node::Stmt(st, _) => st,
        _ => { return unreached(); },
    };
    match st {
        Stmt::VariableDecl(v) => {
            let v = *v;
            let value = match &ctx.nodes[v] {
                Node::VarDecl(d) => d.value,
                _ => { return unreached(); },
            };
            proof {
                assert(crate::ir::node::node_ok(ctx.nodes@, v as int, ctx.types.types@.len() as int));
            }
            file_symbol(table, ctx, SymbolValueItem::VarDecl(v))?;
            let ghost c1 = *ctx;
            let ghost t1 = *table;
            collect_expr(ctx, table, value)?;
            proof {
                lemma_collect_post_trans(ctx, &c1, &c0);
                assert forall|k: int| 0 <= k < t0.scope_global_table@.len() implies #[trigger] table.scope_global_table@[k] == t0.scope_global_table@[k] by {
                    assert(t1.scope_global_table@[k] == t0.scope_global_table@[k]);
                }
                assert(ordered_items(arena_items(c0.symbols), t0).push(SymbolValueItem::VarDecl(v))
                    =~= ordered_items(arena_items(c0.symbols), t0) + stmt_var_decls(c0.nodes@, s));
            }
            Ok(())
        },
        Stmt::FunctionDecl(f) => {
            let f = *f;
            collect_function(ctx, table, f)?;
            assert(ordered_items(arena_items(c0.symbols), t0) + stmt_var_decls(c0.nodes@, s) =~= ordered_items(arena_items(c0.symbols), t0));
            Ok(())
        },
        Stmt::StructDecl(d) => {
            let d = *d;
            collect_struct(ctx, table, d)?;
            assert(ordered_items(arena_items(c0.symbols), t0) + stmt_var_decls(c0.nodes@, s) =~= ordered_items(arena_items(c0.symbols), t0));
            Ok(())
        },
        Stmt::EnumDecl(d) => {
            let d = *d;
            collect_enum(ctx, table, d)?;
            assert(ordered_items(arena_items(c0.symbols), t0) + stmt_var_decls(c0.nodes@, s) =~= ordered_items(arena_items(c0.symbols), t0));
            Ok(())
        },
        Stmt::Expression(e) | Stmt::Return(e) => {
            let e = *e;
            collect_expr(ctx, table, e)?;
            assert(ordered_items(arena_items(c0.symbols), t0) + stmt_var_decls(c0.nodes@, s) =~= ordered_items(arena_items(c0.symbols), t0));
            Ok(())
        },
        Stmt::Comment(_) => {
            proof { lemma_untouched(ctx, &c0, t0); }
            assert(ordered_items(arena_items(c0.symbols), t0) + stmt_var_decls(c0.nodes@, s) =~= ordered_items(arena_items(c0.symbols), t0));
            Ok(())
        },
    }
}

/// Files the symbols of the expressions `es`, all before node `bound`, in `table`.
#[verifier::loop_isolation(false)]
fn collect_exprs(ctx: &mut IrCtx, table: &mut SymbolTable, es: &Vec<NodeRef>, bound: usize) -> (r: Result<(), SymbolCollectionError>)
    requires
        old(ctx).wf(),
        forall|k: int| 0 <= k < es@.len() ==> #[trigger] es@[k] < bound && is_expr(old(ctx).nodes@, es@[k] as int),
        filled_ok(old(ctx), *old(table)),
    ensures
        collect_post(final(ctx), old(ctx)),
        r is Ok ==> filled_ok(final(ctx), *final(table)),
        r is Ok ==> filled_keeps(final(ctx), *final(table), old(ctx), *old(table)),
        files(*old(table), *final(table), r, filing_exprs(old(ctx).nodes@, es@, bound)),
    decreases bound, 0nat,
{
    let ghost c0 = *ctx;
    let ghost t0 = *table;
    proof {
        lemma_untouched(ctx, &c0, t0);
        assert(es@.take(0) =~= Seq::<NodeRef>::empty());
        lemma_files_none(t0, t0);
    }
    let mut i: usize = 0;
    while i < es.len()
        invariant
            i <= es@.len(),
            ctx.wf(),
            collect_post(ctx, &c0),
            forall|k: int| 0 <= k < es@.len() ==> #[trigger] es@[k] < bound && is_expr(c0.nodes@, es@[k] as int),
            filled_ok(ctx, *table),
            filled_keeps(ctx, *table, &c0, t0),
            files(t0, *table, Ok(()), filing_exprs(c0.nodes@, es@.take(i as int), bound)),
        decreases es@.len() - i,
    {
        let ghost c1 = *ctx;
        let ghost t1 = *table;
        let ghost next = es@.take(i + 1);
        proof {
            assert(next.drop_last() =~= es@.take(i as int));
            assert(next.last() == es@[i as int]);
        }
        match collect_expr(ctx, table, es[i]) {
            Ok(_) => {},
            Err(e) => {
                proof {
                    lemma_collect_post_trans(ctx, &c1, &c0);
                    lemma_files_then(t0, t1, *table, Err(e), filing_exprs(c0.nodes@, es@.take(i as int), bound),
                        filing_expr(c0.nodes@, es@[i as int]));
                    lemma_exprs_prefix_fail(c0.nodes@, es@, bound, i + 1, keys_of(t0.scope_global_table@), keys_of(t0.scopes@));
                }
                return Err(e);
            },
        }
        proof {
            lemma_files_then(t0, t1, *table, Ok(()), filing_exprs(c0.nodes@, es@.take(i as int), bound),
                filing_expr(c0.nodes@, es@[i as int]));
            lemma_collect_post_trans(ctx, &c1, &c0);
            assert forall|k: int| 0 <= k < t0.scope_global_table@.len() implies #[trigger] table.scope_global_table@[k] == t0.scope_global_table@[k] by {
                assert(t1.scope_global_table@[k] == t0.scope_global_table@[k]);
            }
        }
        i = i + 1;
    }
    assert(es@.take(es@.len() as int) =~= es@);
    Ok(())
}

/// Files the symbols of the expression `e` (the scopes of the functions and
/// struct initializations in it) in `table`.
fn collect_expr(ctx: &mut IrCtx, table: &mut SymbolTable, e: NodeRef) -> (r: Result<(), SymbolCollectionError>)
    requires
        old(ctx).wf(),
        is_expr(old(ctx).nodes@, e as int),
        filled_ok(old(ctx), *old(table)),
    ensures
        collect_post(final(ctx), old(ctx)),
        r is Ok ==> filled_ok(final(ctx), *final(table)),
        r is Ok ==> filled_keeps(final(ctx), *final(table), old(ctx), *old(table)),
        files(*old(table), *final(table), r, filing_expr(old(ctx).nodes@, e)),
    decreases e, 1nat,
{
    let ghost c0 = *ctx;
    let ghost t0 = *table;
    proof {
        assert(crate::ir::node::node_ok(ctx.nodes@, e as int, ctx.types.types@.len() as int));
        lemma_untouched(ctx, &c0, t0);
    }
    let ex = match &ctx.nodes[e] {
        Node::Expr(ex, _) => ex,
        _ => { return unreached(); },
    };
    match ex {
        Expr::Tuple(items) | Expr::EnumInit { items, .. } => {
            let items = copy_refs(items);
            collect_exprs(ctx, table, &items, e)
        },
        Expr::TupleAccess { tuple_expr: x, .. } | Expr::StructAccess { struct_expr: x, .. } => {
            let x = *x;
            collect_expr(ctx, table, x)
        },
        Expr::FunctionCall { func, params } | Expr::MethodCall { struct_expr: func, params, .. } => {
            let func = *func;
            let params = copy_refs(params);
            match collect_expr(ctx, table, func) {
                Ok(_) => {},
                Err(err) => {
                    proof { lemma_files_fail_then(t0, *table, err, filing_expr(c0.nodes@, func), filing_exprs(c0.nodes@, params@, e)); }
                    return Err(err);
                },
            }
            let ghost c1 = *ctx;
            let ghost t1 = *table;
            let r2 = collect_exprs(ctx, table, &params, e);
            proof { lemma_files_then(t0, t1, *table, r2, filing_expr(c0.nodes@, func), filing_exprs(c0.nodes@, params@, e)); }
            match r2 {
                Ok(_) => {},
                Err(err) => { return Err(err); },
            }
            proof {
                lemma_collect_post_trans(ctx, &c1, &c0);
                assert forall|k: int| 0 <= k < t0.scope_global_table@.len() implies #[trigger] table.scope_global_table@[k] == t0.scope_global_table@[k] by {
                    assert(t1.scope_global_table@[k] == t0.scope_global_table@[k]);
                }
            }
            Ok(())
        },
        Expr::Function(f) => {
            let f = *f;
            collect_function(ctx, table, f)
        },
        Expr::StructInit { values, .. } => {
            let n = values.len();
            let mut vals: Vec<NodeRef> = Vec::new();
            let mut k: usize = 0;
            while k < n
                invariant
                    k <= n,
                    n == values@.len(),
                    vals@.len() == k,
                    forall|j: int| 0 <= j < k ==> #[trigger] vals@[j] == values@[j].value,
                decreases n - k,
            {
                vals.push(values[k].value);
                k = k + 1;
            }
            let ghost inner = filing_values(c0.nodes@, values@, e);
            let ghost kinit = item_key(c0.nodes@, SymbolValueItem::StructInit(e));
            proof { lemma_filing_values(c0.nodes@, values@, vals@, e); }
            let mut child = SymbolTable::new();
            let ghost e0 = child;
            file_symbol(&mut child, ctx, SymbolValueItem::StructInit(e))?;
            let ghost ch1 = child;
            let ghost c1 = *ctx;
            proof {
                assert(keys_of(ch1.scope_global_table@) =~= seq![kinit]);
                assert(keys_of(ch1.scopes@) =~= Seq::<KeyView>::empty());
            }
            match collect_exprs(ctx, &mut child, &vals, e) {
                Ok(_) => {},
                Err(err) => { return Err(err); },
            }
            proof {
                lemma_collect_post_trans(ctx, &c1, &c0);
                lemma_untouched(ctx, &c0, t0);
            }
            let r3 = file_scope(table, ctx, IdentKey::Anonymous(e), child);
            proof {
                lemma_files_scope(t0, *table, KeyView::Anonymous(e), !fits(seq![kinit], Seq::empty(), inner), r3);
            }
            match r3 {
                Ok(_) => {},
                Err(err) => { return Err(err); },
            }
            Ok(())
        },
        Expr::UnresolvedMemberAccess { object, items, .. } => {
            let obj = *object;
            let its = match items {
                Some(v) => copy_refs(v),
                None => Vec::new(),
            };
            let ghost fo = match obj {
                Some(o) => if o < e {
                    filing_expr(c0.nodes@, o)
                } else {
                    no_filing()
                },
                None => no_filing(),
            };
            match obj {
                Some(o) => {
                    match collect_expr(ctx, table, o) {
                        Ok(_) => {},
                        Err(err) => {
                            proof { lemma_files_fail_then(t0, *table, err, fo, filing_exprs(c0.nodes@, its@, e)); }
                            return Err(err);
                        },
                    }
                },
                None => {
                    proof { lemma_files_none(t0, *table); }
                },
            }
            let ghost c1 = *ctx;
            let ghost t1 = *table;
            proof {
                if items is None {
                    assert(its@ =~= Seq::<NodeRef>::empty());
                }
            }
            let r2 = collect_exprs(ctx, table, &its, e);
            proof { lemma_files_then(t0, t1, *table, r2, fo, filing_exprs(c0.nodes@, its@, e)); }
            match r2 {
                Ok(_) => {},
                Err(err) => { return Err(err); },
            }
            proof {
                lemma_collect_post_trans(ctx, &c1, &c0);
                assert forall|k: int| 0 <= k < t0.scope_global_table@.len() implies #[trigger] table.scope_global_table@[k] == t0.scope_global_table@[k] by {
                    assert(t1.scope_global_table@[k] == t0.scope_global_table@[k]);
                }
            }
            Ok(())
        },
        Expr::Assignment { lhs, rhs } => {
            let lhs = *lhs;
            let rhs = *rhs;
            match collect_expr(ctx, table, lhs) {
                Ok(_) => {},
                Err(err) => {
                    proof { lemma_files_fail_then(t0, *table, err, filing_expr(c0.nodes@, lhs), filing_expr(c0.nodes@, rhs)); }
                    return Err(err);
                },
            }
            let ghost c1 = *ctx;
            let ghost t1 = *table;
            let r2 = collect_expr(ctx, table, rhs);
            proof { lemma_files_then(t0, t1, *table, r2, filing_expr(c0.nodes@, lhs), filing_expr(c0.nodes@, rhs)); }
            match r2 {
                Ok(_) => {},
                Err(err) => { return Err(err); },
            }
            proof {
                lemma_collect_post_trans(ctx, &c1, &c0);
                assert forall|k: int| 0 <= k < t0.scope_global_table@.len() implies #[trigger] table.scope_global_table@[k] == t0.scope_global_table@[k] by {
                    assert(t1.scope_global_table@[k] == t0.scope_global_table@[k]);
                }
            }
            Ok(())
        },
        _ => {
            proof { lemma_files_none(t0, t0); }
            Ok(())
        },
    }
}

/// Files the function `f` in `table`, and its arguments and body in a scope
/// of its own.
#[verifier::loop_isolation(false)]
fn collect_function(ctx: &mut IrCtx, table: &mut SymbolTable, f: NodeRef) -> (r: Result<(), SymbolCollectionError>)
    requires
        old(ctx).wf(),
        is_func(old(ctx).nodes@, f as int),
        filled_ok(old(ctx), *old(table)),
    ensures
        collect_post(final(ctx), old(ctx)),
        r is Ok ==> filled_ok(final(ctx), *final(table)),
        r is Ok ==> filled_keeps(final(ctx), *final(table), old(ctx), *old(table)),
        has_key(old(table).scope_global_table@, item_key(old(ctx).nodes@, SymbolValueItem::FuncDecl(f))) ==> r is Err,
        declares_twice(old(ctx).nodes@, old(ctx).nodes@[f as int]->Function_0.body@) ==> r is Err,
        args_twice(old(ctx).nodes@[f as int]->Function_0.args@) ==> r is Err,
        files(*old(table), *final(table), r, declared_filing(item_key(old(ctx).nodes@, SymbolValueItem::FuncDecl(f)),
            func_clashes(old(ctx).nodes@, f))),
        r is Ok ==> has_key(final(table).scope_global_table@, item_key(old(ctx).nodes@, SymbolValueItem::FuncDecl(f))),
    decreases f, 1nat,
{
    let ghost c0 = *ctx;
    let ghost t0 = *table;
    proof {
        assert(crate::ir::node::node_ok(ctx.nodes@, f as int, ctx.types.types@.len() as int));
    }
    let (nargs, body) = match &ctx.nodes[f] {
        Node::Function(fun, _) => (fun.args.len(), copy_refs(&fun.body)),
        _ => { return unreached(); },
    };
    let key = SymbolValueItem::FuncDecl(f).key(ctx);
    let ghost kf = item_key(c0.nodes@, SymbolValueItem::FuncDecl(f));
    let ghost fun = c0.nodes@[f as int]->Function_0;
    let ghost argkeys = Seq::new(fun.args@.len(), |m: int| KeyView::Named(fun.args@[m].name.name@));
    let ghost bodyf = filing_stmts(c0.nodes@, fun.body@, f);
    proof {
        lemma_fits_declared(keys_of(t0.scope_global_table@), keys_of(t0.scopes@), kf, func_clashes(c0.nodes@, f));
        lemma_fits_then(
            Seq::empty(),
            Seq::empty(),
            Filing { symbols: argkeys, scopes: Seq::empty(), clash: false },
            bodyf,
        );
        assert(then(Filing { symbols: argkeys, scopes: Seq::empty(), clash: false }, bodyf) =~= Filing {
            symbols: argkeys + bodyf.symbols,
            scopes: bodyf.scopes,
            clash: bodyf.clash,
        });
        assert(func_clashes(c0.nodes@, f) == !fits(Seq::empty(), Seq::empty(), then(Filing { symbols: argkeys, scopes: Seq::empty(), clash: false }, bodyf)));
        assert(Seq::<KeyView>::empty() + argkeys =~= argkeys);
        assert(!clash_into(Seq::empty(), Seq::<KeyView>::empty()));
    }
    file_symbol(table, ctx, SymbolValueItem::FuncDecl(f))?;
    let ghost c1 = *ctx;
    let ghost t1 = *table;
    let mut child = SymbolTable::new();
    proof { assert(keys_of(child.scope_global_table@) =~= argkeys.take(0)); }
    let mut k: usize = 0;
    while k < nargs
        invariant
            k <= nargs,
            ctx.wf(),
            ctx.nodes@ == c0.nodes@,
            is_func(c0.nodes@, f as int),
            nargs == c0.nodes@[f as int]->Function_0.args@.len(),
            collect_post(ctx, &c1),
            collect_post(&c1, &c0),
            filled_ok(ctx, child),
            forall|m: int| 0 <= m < k ==> has_key(child.scope_global_table@, KeyView::Named(
                (#[trigger] c0.nodes@[f as int]->Function_0.args@[m]).name.name@)),
            !args_twice(c0.nodes@[f as int]->Function_0.args@.take(k as int)),
            keys_of(child.scope_global_table@) == argkeys.take(k as int),
            !dup(argkeys.take(k as int)),
            child.scopes@.len() == 0,
        decreases nargs - k,
    {
        let ghost c2 = *ctx;
        let ghost ch0 = child;
        let ghost args = c0.nodes@[f as int]->Function_0.args@;
        assert(item_key(c0.nodes@, SymbolValueItem::FuncArg(f, k)) == argkeys[k as int]);
        match file_symbol(&mut child, ctx, SymbolValueItem::FuncArg(f, k)) {
            Ok(_) => {},
            Err(e) => {
                proof {
                    lemma_collect_post_trans(ctx, &c2, &c1);
                    lemma_collect_post_trans(ctx, &c1, &c0);
                    assert(keys_of(ch0.scope_global_table@).contains(argkeys[k as int]));
                    let j = choose|j: int| 0 <= j < argkeys.take(k as int).len() && #[trigger] argkeys.take(k as int)[j] == argkeys[k as int];
                    assert(argkeys[j] == argkeys[k as int]);
                    assert(dup(argkeys));
                    assert((argkeys + bodyf.symbols)[j] == argkeys[j]);
                    assert((argkeys + bodyf.symbols)[k as int] == argkeys[k as int]);
                    assert(dup(argkeys + bodyf.symbols));
                }
                return Err(e);
            },
        }
        proof {
            assert(keys_of(child.scope_global_table@) =~= argkeys.take(k + 1));
            assert(!dup(argkeys.take(k + 1))) by {
                if dup(argkeys.take(k + 1)) {
                    let tk = argkeys.take(k + 1);
                    let (a, b) = choose|a: int, b: int| 0 <= a < b < tk.len() && #[trigger] tk[a] == #[trigger] tk[b];
                    if b < k {
                        assert(argkeys.take(k as int)[a] == tk[a]);
                        assert(argkeys.take(k as int)[b] == tk[b]);
                        assert(dup(argkeys.take(k as int)));
                    } else {
                        assert(argkeys.take(k as int)[a] == argkeys[k as int]);
                        assert(keys_of(ch0.scope_global_table@).contains(argkeys[k as int]));
                    }
                }
            }
            lemma_collect_post_trans(ctx, &c2, &c1);
            assert forall|m: int| 0 <= m <= k implies has_key(child.scope_global_table@, KeyView::Named(
                (#[trigger] args[m]).name.name@)) by {
                if m < k {
                    lemma_has_key_extends(child.scope_global_table@, ch0.scope_global_table@, KeyView::Named(args[m].name.name@));
                }
            }
            assert(!args_twice(args.take(k + 1))) by {
                if args_twice(args.take(k + 1)) {
                    let (a, b) = choose|a: int, b: int| 0 <= a < b < args.take(k + 1).len()
                        && (#[trigger] args.take(k + 1)[a]).name.name@ == (#[trigger] args.take(k + 1)[b]).name.name@;
                    if b < k {
                        assert(args.take(k as int)[a] == args[a] && args.take(k as int)[b] == args[b]);
                        assert(args_twice(args.take(k as int)));
                    } else {
                        assert(has_key(ch0.scope_global_table@, KeyView::Named(args[a].name.name@)));
                    }
                }
            }
        }
        k = k + 1;
    }
    proof {
        assert(c0.nodes@[f as int]->Function_0.args@.take(nargs as int) =~= c0.nodes@[f as int]->Function_0.args@);
    }
    let ghost c3 = *ctx;
    proof {
        assert(argkeys.take(nargs as int) =~= argkeys);
        assert(keys_of(child.scopes@) =~= Seq::<KeyView>::empty());
    }
    collect_stmts(ctx, &mut child, &body, f)?;
    proof {
        lemma_collect_post_trans(ctx, &c3, &c1);
        lemma_untouched(ctx, &c1, t1);
        lemma_collect_post_trans(ctx, &c1, &c0);
    }
    let ghost t2 = *table;
    let r = file_scope(table, ctx, key, child);
    proof {
        lemma_files_declared(t0, t1, *table, kf, func_clashes(c0.nodes@, f), r);
    }
    match r {
        Ok(()) => {},
        Err(e) => { return Err(e); },
    }
    proof {
        assert(ordered_items(arena_items(ctx.symbols), *table) == ordered_items(arena_items(ctx.symbols), t1));
    }
    Ok(())
}

/// Files the struct `d` in `table`, and its attributes in a scope of its own.
#[verifier::loop_isolation(false)]
fn collect_struct(ctx: &mut IrCtx, table: &mut SymbolTable, d: NodeRef) -> (r: Result<(), SymbolCollectionError>)
    requires
        old(ctx).wf(),
        is_struct(old(ctx).nodes@, d as int),
        filled_ok(old(ctx), *old(table)),
    ensures
        collect_post(final(ctx), old(ctx)),
        r is Ok ==> filled_ok(final(ctx), *final(table)),
        r is Ok ==> filled_keeps(final(ctx), *final(table), old(ctx), *old(table)),
        has_key(old(table).scope_global_table@, item_key(old(ctx).nodes@, SymbolValueItem::StructDecl(d))) ==> r is Err,
        attrs_twice(old(ctx).nodes@[d as int]->Struct_0.attrs@) ==> r is Err,
        files(*old(table), *final(table), r, declared_filing(item_key(old(ctx).nodes@, SymbolValueItem::StructDecl(d)),
            struct_clashes(old(ctx).nodes@, d))),
        r is Ok ==> has_key(final(table).scope_global_table@, item_key(old(ctx).nodes@, SymbolValueItem::StructDecl(d))),
    decreases d, 1nat,
{
    let ghost c0 = *ctx;
    let ghost t0 = *table;
    proof {
        assert(crate::ir::node::node_ok(ctx.nodes@, d as int, ctx.types.types@.len() as int));
    }
    let nattrs = match &ctx.nodes[d] {
        Node::Struct(st) => st.attrs.len(),
        _ => { return unreached(); },
    };
    let key = SymbolValueItem::StructDecl(d).key(ctx);
    let ghost kd = item_key(c0.nodes@, SymbolValueItem::StructDecl(d));
    proof {
        lemma_fits_declared(keys_of(t0.scope_global_table@), keys_of(t0.scopes@), kd, struct_clashes(c0.nodes@, d));
    }
    file_symbol(table, ctx, SymbolValueItem::StructDecl(d))?;
    let ghost c1 = *ctx;
    let ghost t1 = *table;
    let mut child = SymbolTable::new();
    let ghost e0 = child;
    proof {
        assert(keys_of(e0.scope_global_table@) =~= Seq::<KeyView>::empty());
        assert(keys_of(e0.scopes@) =~= Seq::<KeyView>::empty());
        lemma_files_none(e0, e0);
        assert(filing_attrs(c0.nodes@, d, 0) == no_filing());
    }
    let mut k: usize = 0;
    while k < nattrs
        invariant
            files(e0, child, Ok(()), filing_attrs(c0.nodes@, d, k as nat)),
            keys_of(e0.scope_global_table@) == Seq::<KeyView>::empty(),
            keys_of(e0.scopes@) == Seq::<KeyView>::empty(),
            k <= nattrs,
            ctx.wf(),
            ctx.nodes@ == c0.nodes@,
            is_struct(c0.nodes@, d as int),
            crate::ir::node::node_ok(c0.nodes@, d as int, c0.types.types@.len() as int),
            nattrs == c0.nodes@[d as int]->Struct_0.attrs@.len(),
            collect_post(ctx, &c1),
            collect_post(&c1, &c0),
            filled_ok(ctx, child),
            forall|m: int| 0 <= m < k ==> has_key(child.scope_global_table@, KeyView::Named(
                (#[trigger] c0.nodes@[d as int]->Struct_0.attrs@[m]).name.name@)),
            !attrs_twice(c0.nodes@[d as int]->Struct_0.attrs@.take(k as int)),
        decreases nattrs - k,
    {
        let ghost c2 = *ctx;
        let ghost ch0 = child;
        let ghost attrs = c0.nodes@[d as int]->Struct_0.attrs@;
        let ghost ka = KeyView::Named(attrs[k as int].name.name@);
        let ghost fa = Filing { symbols: seq![ka], scopes: Seq::empty(), clash: false };
        let ghost fdef = match attrs[k as int].default_value {
            Some(x) => if x < d {
                filing_expr(c0.nodes@, x)
            } else {
                no_filing()
            },
            None => no_filing(),
        };
        proof {
            assert(filing_attrs(c0.nodes@, d, (k + 1) as nat) == then(filing_attrs(c0.nodes@, d, k as nat), then(fa, fdef)));
        }
        let r1 = file_symbol(&mut child, ctx, SymbolValueItem::StructAttr(d, k));
        proof {
            lemma_files_symbol(ch0, child, ka, r1);
        }
        match r1 {
            Ok(_) => {},
            Err(e) => {
                proof {
                    lemma_collect_post_trans(ctx, &c2, &c1);
                    lemma_collect_post_trans(ctx, &c1, &c0);
                    lemma_files_fail_then(ch0, child, e, fa, fdef);
                    lemma_files_then(e0, ch0, child, Err(e), filing_attrs(c0.nodes@, d, k as nat), then(fa, fdef));
                    lemma_attrs_prefix_fail(c0.nodes@, d, (k + 1) as nat, nattrs as nat, Seq::empty(), Seq::empty());
                }
                return Err(e);
            },
        }
        proof {
            lemma_collect_post_trans(ctx, &c2, &c1);
            assert forall|m: int| 0 <= m <= k implies has_key(child.scope_global_table@, KeyView::Named(
                (#[trigger] attrs[m]).name.name@)) by {
                if m < k {
                    lemma_has_key_extends(child.scope_global_table@, ch0.scope_global_table@, KeyView::Named(attrs[m].name.name@));
                }
            }
            assert(!attrs_twice(attrs.take(k + 1))) by {
                if attrs_twice(attrs.take(k + 1)) {
                    let (a, b) = choose|a: int, b: int| 0 <= a < b < attrs.take(k + 1).len()
                        && (#[trigger] attrs.take(k + 1)[a]).name.name@ == (#[trigger] attrs.take(k + 1)[b]).name.name@;
                    if b < k {
                        assert(attrs.take(k as int)[a] == attrs[a] && attrs.take(k as int)[b] == attrs[b]);
                        assert(attrs_twice(attrs.take(k as int)));
                    } else {
                        assert(has_key(ch0.scope_global_table@, KeyView::Named(attrs[a].name.name@)));
                    }
                }
            }
        }
        let ghost ch1 = child;
        let default = match &ctx.nodes[d] {
            Node::Struct(st) => st.attrs[k].default_value,
            _ => { return unreached(); },
        };
        match default {
            Some(x) => {
                let ghost c4 = *ctx;
                proof {
                    assert(crate::ir::node::node_ok(c0.nodes@, d as int, c0.types.types@.len() as int));
                    assert(x < d);
                }
                match collect_expr(ctx, &mut child, x) {
                    Ok(_) => {},
                    Err(e) => {
                        proof {
                            lemma_collect_post_trans(ctx, &c4, &c1);
                            lemma_collect_post_trans(ctx, &c1, &c0);
                            lemma_files_then(ch0, ch1, child, Err(e), fa, fdef);
                            lemma_files_then(e0, ch0, child, Err(e), filing_attrs(c0.nodes@, d, k as nat), then(fa, fdef));
                            lemma_attrs_prefix_fail(c0.nodes@, d, (k + 1) as nat, nattrs as nat, Seq::empty(), Seq::empty());
                        }
                        return Err(e);
                    },
                }
                proof {
                    lemma_files_then(ch0, ch1, child, Ok(()), fa, fdef);
                    lemma_files_then(e0, ch0, child, Ok(()), filing_attrs(c0.nodes@, d, k as nat), then(fa, fdef));
                    lemma_collect_post_trans(ctx, &c4, &c1);
                    let attrs = c0.nodes@[d as int]->Struct_0.attrs@;
                    assert forall|m: int| 0 <= m <= k implies has_key(child.scope_global_table@, KeyView::Named(
                        (#[trigger] attrs[m]).name.name@)) by {
                        lemma_has_key_extends(child.scope_global_table@, ch1.scope_global_table@, KeyView::Named(attrs[m].name.name@));
                    }
                }
            },
            None => {
                proof {
                    lemma_files_none(ch1, child);
                    lemma_files_then(ch0, ch1, child, Ok(()), fa, fdef);
                    lemma_files_then(e0, ch0, child, Ok(()), filing_attrs(c0.nodes@, d, k as nat), then(fa, fdef));
                }
            },
        }
        k = k + 1;
    }
    proof {
        assert(c0.nodes@[d as int]->Struct_0.attrs@.take(nattrs as int) =~= c0.nodes@[d as int]->Struct_0.attrs@);
        lemma_untouched(ctx, &c1, t1);
        lemma_collect_post_trans(ctx, &c1, &c0);
    }
    let r = file_scope(table, ctx, key, child);
    proof { lemma_files_declared(t0, t1, *table, kd, struct_clashes(c0.nodes@, d), r); }
    r
}

/// Files the enum `d` in `table`, with an empty scope of its own.
fn collect_enum(ctx: &mut IrCtx, table: &mut SymbolTable, d: NodeRef) -> (r: Result<(), SymbolCollectionError>)
    requires
        old(ctx).wf(),
        is_enum(old(ctx).nodes@, d as int),
        filled_ok(old(ctx), *old(table)),
    ensures
        collect_post(final(ctx), old(ctx)),
        r is Ok ==> filled_ok(final(ctx), *final(table)),
        r is Ok ==> filled_keeps(final(ctx), *final(table), old(ctx), *old(table)),
        has_key(old(table).scope_global_table@, item_key(old(ctx).nodes@, SymbolValueItem::EnumDecl(d))) ==> r is Err,
        r is Ok ==> has_key(final(table).scope_global_table@, item_key(old(ctx).nodes@, SymbolValueItem::EnumDecl(d))),
        files(*old(table), *final(table), r, declared_filing(item_key(old(ctx).nodes@, SymbolValueItem::EnumDecl(d)), false)),
    decreases d, 1nat,
{
    let ghost t0 = *table;
    let ghost k = item_key(ctx.nodes@, SymbolValueItem::EnumDecl(d));
    let key = SymbolValueItem::EnumDecl(d).key(ctx);
    proof { lemma_fits_declared(keys_of(t0.scope_global_table@), keys_of(t0.scopes@), k, false); }
    file_symbol(table, ctx, SymbolValueItem::EnumDecl(d))?;
    let ghost t1 = *table;
    let child = SymbolTable::new();
    let r = file_scope(table, ctx, key, child);
    proof { lemma_files_declared(t0, t1, *table, k, false, r); }
    r
}

/// Builtin types are told apart by the first letter of their names.
pub proof fn lemma_builtin_names_distinct(a: BuiltinType, b: BuiltinType)
    ensures
        a != b ==> builtin_name(a) != builtin_name(b),
{
    if a != b {
        assert(builtin_name(a)[0] != builtin_name(b)[0]);
    }
}

/// The keys of the builtin types, in the order in which they are filed.
pub open spec fn builtin_keys() -> Seq<KeyView> {
    Seq::new(BUILTIN_COUNT as nat, |j: int| KeyView::Named(builtin_name(builtin_at(j))))
}

/// The global table of a program starts with the builtin types, in the order
/// of `builtin_at`, each filed under its name.
pub open spec fn builtins_filed(items: Seq<SymbolValueItem>, t: SymbolTable) -> bool {
    &&& t.scope_global_table@.len() >= BUILTIN_COUNT
    &&& forall|i: int| 0 <= i < 5 ==> (#[trigger] t.scope_global_table@[i]).0@ == KeyView::Named(builtin_name(builtin_at(i)))
        && symbol_item(items, t.scope_global_table@[i].1) == SymbolValueItem::BuiltinType(builtin_at(i))
}

impl SymbolCollector {
    /// A collector.
    pub fn new() -> (r: SymbolCollector) {
        SymbolCollector {}
    }

    /// The symbol table of a whole program: the builtin types, then the
    /// declarations of the top-level statements `stmts`, with a nested
    /// table for every function, struct, enum and struct initialization.
    /// Fails exactly when some scope would hold one key twice: two
    /// declarations of a scope share a name (a top-level one may not take
    /// the name of a builtin type either), or a scope is filed twice.
    pub fn collect(&self, ctx: &mut IrCtx, stmts: &Vec<NodeRef>) -> (r: Result<SymbolTable, SymbolCollectionError>)
        requires
            old(ctx).wf(),
            stmts_valid(old(ctx).nodes@, stmts@),
        ensures
            collect_post(final(ctx), old(ctx)),
            r matches Ok(t) ==> {
                &&& filled_ok(final(ctx), t)
                &&& builtins_filed(arena_items(final(ctx).symbols), t)
                &&& ordered_items(arena_items(final(ctx).symbols), t) == var_decls(old(ctx).nodes@, stmts@)
                &&& keys_of(t.scope_global_table@) == builtin_keys() + filing_stmts(old(ctx).nodes@, stmts@,
                    old(ctx).nodes@.len() as NodeRef).symbols
                &&& keys_of(t.scopes@) == filing_stmts(old(ctx).nodes@, stmts@, old(ctx).nodes@.len() as NodeRef).scopes
            },
            declares_twice(old(ctx).nodes@, stmts@) || declares_builtin(old(ctx).nodes@, stmts@) ==> r is Err,
        r is Ok <==> fits(builtin_keys(), Seq::empty(), filing_stmts(old(ctx).nodes@, stmts@, old(ctx).nodes@.len() as NodeRef)),
    {
        let ghost c0 = *ctx;
        let mut table = SymbolTable::new();
        assert(ordered_items(arena_items(ctx.symbols), table) =~= Seq::<SymbolValueItem>::empty());
        let bs = builtin_types();
        let mut i: usize = 0;
        while i < 5
            invariant
                i <= 5,
                bs@ == seq![BuiltinType::String, BuiltinType::Number, BuiltinType::Boolean, BuiltinType::Void, BuiltinType::Untyped],
                collect_post(ctx, &c0),
                filled_ok(ctx, table),
                table.scope_global_table@.len() == i,
                table.scopes@.len() == 0,
                ordered_items(arena_items(ctx.symbols), table) == Seq::<SymbolValueItem>::empty(),
                forall|j: int| 0 <= j < i ==> (#[trigger] table.scope_global_table@[j]).0@ == KeyView::Named(builtin_name(builtin_at(j)))
                    && symbol_item(arena_items(ctx.symbols), table.scope_global_table@[j].1) == SymbolValueItem::BuiltinType(builtin_at(j)),
            decreases 5 - i,
        {
            let b = bs[i];
            assert(b == builtin_at(i as int));
            let ghost c1 = *ctx;
            let ghost t1 = table;
            proof {
                assert forall|j: int| 0 <= j < t1.scope_global_table@.len() implies (#[trigger] t1.scope_global_table@[j]).0@ != KeyView::Named(builtin_name(b)) by {
                    lemma_builtin_names_distinct(builtin_at(j), b);
                    assert(builtin_at(j) != b);
                }
                crate::symbols::symbol_table::lemma_entries_get_none(t1.scope_global_table@, KeyView::Named(builtin_name(b)));
            }
            match file_symbol(&mut table, ctx, SymbolValueItem::BuiltinType(b)) {
                Ok(_) => {},
                Err(e) => {
                    proof { lemma_collect_post_trans(ctx, &c1, &c0); }
                    return Err(e);
                },
            }
            proof {
                lemma_collect_post_trans(ctx, &c1, &c0);
                assert forall|j: int| 0 <= j < i + 1 implies (#[trigger] table.scope_global_table@[j]).0@ == KeyView::Named(builtin_name(builtin_at(j)))
                    && symbol_item(arena_items(ctx.symbols), table.scope_global_table@[j].1) == SymbolValueItem::BuiltinType(builtin_at(j)) by {
                    if j < i {
                        assert(table.scope_global_table@[j] == t1.scope_global_table@[j]);
                        assert(symbol_ok(c1.nodes@, arena_items(c1.symbols), arena_ident(c1.symbols), t1.scope_global_table@[j].1));
                    }
                }
            }
            i = i + 1;
        }
        let ghost c2 = *ctx;
        let ghost t2 = table;
        proof {
            if declares_builtin(c0.nodes@, stmts@) {
                let (b, x) = choose|b: int, x: BuiltinType| #![trigger stmts@[b], builtin_name(x)] 0 <= b < stmts@.len()
                    && decl_key(c0.nodes@, stmts@[b]) == Some(KeyView::Named(builtin_name(x)));
                let j = builtin_index(x) as int;
                assert(builtin_at(j) == x);
                assert(t2.scope_global_table@[j].0@ == KeyView::Named(builtin_name(x)));
                assert(has_key(t2.scope_global_table@, KeyView::Named(builtin_name(x))));
                assert(declares_taken(c2.nodes@, stmts@, t2.scope_global_table@));
            }
        }
        proof {
            assert(keys_of(t2.scope_global_table@) =~= builtin_keys());
            assert(keys_of(t2.scopes@) =~= Seq::<KeyView>::empty());
        }
        match collect_stmts(ctx, &mut table, stmts, ctx.nodes.len()) {
            Ok(_) => {},
            Err(e) => {
                proof { lemma_collect_post_trans(ctx, &c2, &c0); }
                return Err(e);
            },
        }
        proof {
            lemma_collect_post_trans(ctx, &c2, &c0);
            assert(ordered_items(arena_items(c2.symbols), t2) =~= Seq::<SymbolValueItem>::empty());
            assert(ordered_items(arena_items(c2.symbols), t2) + var_decls(c2.nodes@, stmts@) =~= var_decls(c0.nodes@, stmts@));
            assert forall|j: int| 0 <= j < 5 implies (#[trigger] table.scope_global_table@[j]).0@ == KeyView::Named(builtin_name(builtin_at(j)))
                && symbol_item(arena_items(ctx.symbols), table.scope_global_table@[j].1) == SymbolValueItem::BuiltinType(builtin_at(j)) by {
                assert(table.scope_global_table@[j] == t2.scope_global_table@[j]);
                assert(symbol_ok(c2.nodes@, arena_items(c2.symbols), arena_ident(c2.symbols), t2.scope_global_table@[j].1));
            }
        }
        Ok(table)
    }
}

} // verus!
