use vstd::prelude::*;

use crate::ir::context::IrCtx;
use crate::ir::node::{is_func, is_stmt, Node, NodeRef, Stmt};
use crate::ir::text::copy_refs;

use super::{has_name, var_name, SymbolTable, SymbolsError};

verus! {

/// Collects the variables of a program into flat tables: one per scope, the
/// body of every named function being a scope of its own.
#[derive(Debug)]
pub struct SymbolCollector {}

/// The variable declarations among the statements `stmts`, in order.
pub open spec fn declared_vars(nodes: Seq<Node>, stmts: Seq<NodeRef>) -> Seq<NodeRef>
    decreases stmts.len(),
{
    if stmts.len() == 0 {
        Seq::empty()
    } else {
        let rest = declared_vars(nodes, stmts.drop_last());
        match nodes[stmts.last() as int] {
            Node::Stmt(Stmt::VariableDecl(v), _) => rest.push(v),
            _ => rest,
        }
    }
}

/// Two of the variables `vars` share a name.
pub open spec fn has_duplicate_name(nodes: Seq<Node>, vars: Seq<NodeRef>) -> bool {
    exists|i: int, j: int|
        0 <= i < j < vars.len() && var_name(nodes, #[trigger] vars[i]) == var_name(nodes, #[trigger] vars[j])
}

/// The names of the named functions declared among the statements
/// `stmts`, in order.
pub open spec fn declared_funcs(nodes: Seq<Node>, stmts: Seq<NodeRef>) -> Seq<Seq<char>>
    decreases stmts.len(),
{
    if stmts.len() == 0 {
        Seq::empty()
    } else {
        let rest = declared_funcs(nodes, stmts.drop_last());
        match nodes[stmts.last() as int] {
            Node::Stmt(Stmt::FunctionDecl(f), _) => match nodes[f as int]->Function_0.name {
                Some(n) => rest.push(n.name@),
                None => rest,
            },
            _ => rest,
        }
    }
}

/// The scope made of the statements `stmts`, all before node `bound`,
/// collects: no variable takes the name of an earlier variable of the
/// scope, no named function the name of an earlier named function, and the
/// body of every function declared there collects as a scope of its own.
pub open spec fn scope_collects(nodes: Seq<Node>, stmts: Seq<NodeRef>, bound: NodeRef) -> bool
    decreases bound, stmts.len(),
{
    if stmts.len() == 0 {
        true
    } else {
        let pre = stmts.drop_last();
        let vars = declared_vars(nodes, pre);
        scope_collects(nodes, pre, bound) && match nodes[stmts.last() as int] {
            Node::Stmt(Stmt::VariableDecl(v), _) => !(exists|k: int|
                0 <= k < vars.len() && var_name(nodes, #[trigger] vars[k]) == var_name(nodes, v)),
            Node::Stmt(Stmt::FunctionDecl(f), _) => f < bound && scope_collects(nodes, nodes[f as int]->Function_0.body@, f)
                && (nodes[f as int]->Function_0.name matches Some(n) ==> !declared_funcs(nodes, pre).contains(n.name@)),
            _ => true,
        }
    }
}

/// A scope collects only where each of its prefixes does.
pub proof fn lemma_scope_collects_prefix(nodes: Seq<Node>, stmts: Seq<NodeRef>, bound: NodeRef, i: int)
    requires
        0 <= i <= stmts.len(),
        scope_collects(nodes, stmts, bound),
    ensures
        scope_collects(nodes, stmts.take(i), bound),
    decreases stmts.len() - i,
{
    if i < stmts.len() {
        assert(stmts.drop_last().take(i) =~= stmts.take(i));
        lemma_scope_collects_prefix(nodes, stmts.drop_last(), bound, i);
    } else {
        assert(stmts.take(i) =~= stmts);
    }
}

impl SymbolCollector {
    /// A collector.
    pub fn new() -> (r: SymbolCollector) {
        SymbolCollector {}
    }

    /// The table of the variables declared by `stmts`, with a nested table
    /// for the body of every named function among them. Fails when two
    /// variables of one scope share a name.
    pub fn collect(&self, ctx: &IrCtx, stmts: &Vec<NodeRef>) -> (r: Result<SymbolTable, SymbolsError>)
        requires
            ctx.wf(),
            crate::parser::stmts_valid(ctx.nodes@, stmts@),
        ensures
            has_duplicate_name(ctx.nodes@, declared_vars(ctx.nodes@, stmts@)) ==> r is Err,
            r matches Ok(t) ==> t.table@.map_values(|e: (crate::ir::node::Ident, NodeRef)| e.1)
                == declared_vars(ctx.nodes@, stmts@),
            r is Ok <==> scope_collects(ctx.nodes@, stmts@, ctx.nodes@.len() as NodeRef),
            r matches Ok(t) ==> t.scopes@.map_values(|e: (crate::ir::node::Ident, SymbolTable)| e.0.name@)
                == declared_funcs(ctx.nodes@, stmts@),
    {
        collect_scope(ctx, stmts, ctx.nodes.len())
    }
}

/// The table of the scope made of the statements `stmts`, all before `bound`.
fn collect_scope(ctx: &IrCtx, stmts: &Vec<NodeRef>, bound: usize) -> (r: Result<SymbolTable, SymbolsError>)
    requires
        ctx.wf(),
        forall|k: int| 0 <= k < stmts@.len() ==> #[trigger] stmts@[k] < bound && is_stmt(ctx.nodes@, stmts@[k] as int),
    ensures
        has_duplicate_name(ctx.nodes@, declared_vars(ctx.nodes@, stmts@)) ==> r is Err,
        r matches Ok(t) ==> t.table@.map_values(|e: (crate::ir::node::Ident, NodeRef)| e.1)
            == declared_vars(ctx.nodes@, stmts@),
        r is Ok <==> scope_collects(ctx.nodes@, stmts@, bound),
        r matches Ok(t) ==> t.scopes@.map_values(|e: (crate::ir::node::Ident, SymbolTable)| e.0.name@)
            == declared_funcs(ctx.nodes@, stmts@),
    decreases bound,
{
    let mut table = SymbolTable::new();
    let mut i: usize = 0;
    proof {
        assert(stmts@.take(0) =~= Seq::<NodeRef>::empty());
        assert(table.scopes@.map_values(|e: (crate::ir::node::Ident, SymbolTable)| e.0.name@) =~= Seq::<Seq<char>>::empty());
    }
    while i < stmts.len()
        invariant
            scope_collects(ctx.nodes@, stmts@.take(i as int), bound),
            table.scopes@.map_values(|e: (crate::ir::node::Ident, SymbolTable)| e.0.name@) == declared_funcs(ctx.nodes@, stmts@.take(i as int)),
            i <= stmts@.len(),
            ctx.wf(),
            forall|k: int| 0 <= k < stmts@.len() ==> #[trigger] stmts@[k] < bound && is_stmt(ctx.nodes@, stmts@[k] as int),
            table.table@.map_values(|e: (crate::ir::node::Ident, NodeRef)| e.1) == declared_vars(ctx.nodes@, stmts@.take(i as int)),
            forall|k: int| 0 <= k < table.table@.len() ==> (#[trigger] table.table@[k]).0.name@ == var_name(ctx.nodes@, table.table@[k].1),
            !has_duplicate_name(ctx.nodes@, declared_vars(ctx.nodes@, stmts@.take(i as int))),
        decreases stmts@.len() - i,
    {
        let s = stmts[i];
        let ghost pre = stmts@.take(i as int);
        proof {
            assert(stmts@.take(i + 1).drop_last() =~= pre);
            assert(stmts@.take(i + 1).last() == s);
            assert(crate::ir::node::node_ok(ctx.nodes@, s as int, ctx.types.types@.len() as int));
        }
        let st = match &ctx.nodes[s] {
            Node::Stmt(st, _) => st,
            _ => { return unreached(); },
        };
        match st {
            Stmt::VariableDecl(v) => {
                let v = *v;
                let ghost t0 = table.table@;
                let ghost vars = declared_vars(ctx.nodes@, pre);
                assert(t0.map_values(|e: (crate::ir::node::Ident, NodeRef)| e.1) == vars);
                match table.insert(ctx, v) {
                    Ok(_) => {},
                    Err(e) => {
                        proof {
                            let k = choose|k: int| 0 <= k < t0.len() && (#[trigger] t0[k]).0.name@ == var_name(ctx.nodes@, v);
                            assert(vars[k] == t0[k].1);
                            let all = declared_vars(ctx.nodes@, stmts@);
                            lemma_declared_vars_prefix(ctx.nodes@, stmts@, i as int + 1);
                            assert(declared_vars(ctx.nodes@, stmts@.take(i + 1)) == vars.push(v));
                            assert(all[k] == vars[k]);
                            assert(all[vars.len() as int] == v);
                            assert(var_name(ctx.nodes@, all[k]) == var_name(ctx.nodes@, all[vars.len() as int]));
                            assert(var_name(ctx.nodes@, vars[k]) == var_name(ctx.nodes@, v));
                            assert(!scope_collects(ctx.nodes@, stmts@.take(i + 1), bound));
                            if scope_collects(ctx.nodes@, stmts@, bound) {
                                lemma_scope_collects_prefix(ctx.nodes@, stmts@, bound, i + 1);
                            }
                        }
                        return Err(e);
                    },
                }
                proof {
                    let t1 = table.table@;
                    assert(t1.map_values(|e: (crate::ir::node::Ident, NodeRef)| e.1) =~= vars.push(v)) by {
                        assert(t1.drop_last() == t0);
                        assert forall|k: int| 0 <= k < t0.len() implies t1[k] == t0[k] by {
                            assert(t1.drop_last()[k] == t0[k]);
                        }
                    }
                    assert forall|k: int| 0 <= k < t1.len() implies (#[trigger] t1[k]).0.name@ == var_name(ctx.nodes@, t1[k].1) by {
                        if k < t0.len() {
                            assert(t1.drop_last()[k] == t0[k]);
                        }
                    }
                    assert(!has_duplicate_name(ctx.nodes@, vars.push(v))) by {
                        if has_duplicate_name(ctx.nodes@, vars.push(v)) {
                            let (a, b) = choose|a: int, b: int| 0 <= a < b < vars.push(v).len() && var_name(ctx.nodes@, #[trigger] vars.push(v)[a]) == var_name(ctx.nodes@, #[trigger] vars.push(v)[b]);
                            if b < vars.len() {
                                assert(vars.push(v)[a] == vars[a]);
                                assert(vars.push(v)[b] == vars[b]);
                            } else {
                                assert(vars.push(v)[a] == vars[a]);
                                assert(vars[a] == t0[a].1);
                                assert(t0[a].0.name@ == var_name(ctx.nodes@, v));
                            }
                        }
                    }
                }
            },
            Stmt::FunctionDecl(f) => {
                let f = *f;
                let (name, body) = match &ctx.nodes[f] {
                    Node::Function(fun, _) => (
                        match &fun.name {
                            Some(n) => Some(n.copy()),
                            None => None,
                        },
                        copy_refs(&fun.body),
                    ),
                    _ => { return unreached(); },
                };
                proof {
                    assert(crate::ir::node::node_ok(ctx.nodes@, f as int, ctx.types.types@.len() as int));
                }
                let ghost fbody = ctx.nodes@[f as int]->Function_0.body@;
                let ghost sc0 = table.scopes@;
                let child = match collect_scope(ctx, &body, f) {
                    Ok(c) => c,
                    Err(e) => {
                        proof {
                            assert(!scope_collects(ctx.nodes@, stmts@.take(i + 1), bound));
                            if scope_collects(ctx.nodes@, stmts@, bound) {
                                lemma_scope_collects_prefix(ctx.nodes@, stmts@, bound, i + 1);
                            }
                        }
                        return Err(e);
                    },
                };
                match name {
                    Some(n) => {
                        let ghost nn = n.name@;
                        match table.insert_scope(n, child) {
                            Ok(_) => {},
                            Err(e) => {
                                proof {
                                    let j = choose|j: int| 0 <= j < sc0.len() && (#[trigger] sc0[j]).0.name@ == nn;
                                    assert(sc0.map_values(|e: (crate::ir::node::Ident, SymbolTable)| e.0.name@)[j] == nn);
                                    assert(declared_funcs(ctx.nodes@, pre).contains(nn));
                                    assert(!scope_collects(ctx.nodes@, stmts@.take(i + 1), bound));
                                    if scope_collects(ctx.nodes@, stmts@, bound) {
                                        lemma_scope_collects_prefix(ctx.nodes@, stmts@, bound, i + 1);
                                    }
                                }
                                return Err(e);
                            },
                        }
                        proof {
                            assert(table.scopes@.map_values(|e: (crate::ir::node::Ident, SymbolTable)| e.0.name@)
                                =~= sc0.map_values(|e: (crate::ir::node::Ident, SymbolTable)| e.0.name@).push(nn));
                            assert(!declared_funcs(ctx.nodes@, pre).contains(nn)) by {
                                if declared_funcs(ctx.nodes@, pre).contains(nn) {
                                    let j = choose|j: int| 0 <= j < declared_funcs(ctx.nodes@, pre).len()
                                        && declared_funcs(ctx.nodes@, pre)[j] == nn;
                                    assert(sc0.map_values(|e: (crate::ir::node::Ident, SymbolTable)| e.0.name@)[j] == nn);
                                    assert(has_name(sc0, nn));
                                }
                            }
                        }
                    },
                    None => {},
                }
            },
            _ => {},
        }
        i = i + 1;
    }
    assert(stmts@.take(stmts@.len() as int) =~= stmts@);
    Ok(table)
}

/// The variables of a prefix of the statements are a prefix of their variables.
pub proof fn lemma_declared_vars_prefix(nodes: Seq<Node>, stmts: Seq<NodeRef>, i: int)
    requires
        0 <= i <= stmts.len(),
    ensures
        declared_vars(nodes, stmts.take(i)).len() <= declared_vars(nodes, stmts).len(),
        forall|k: int| 0 <= k < declared_vars(nodes, stmts.take(i)).len()
            ==> #[trigger] declared_vars(nodes, stmts)[k] == declared_vars(nodes, stmts.take(i))[k],
    decreases stmts.len() - i,
{
    if i < stmts.len() {
        lemma_declared_vars_prefix(nodes, stmts, i + 1);
        assert(stmts.take(i + 1).drop_last() =~= stmts.take(i));
    } else {
        assert(stmts.take(i) =~= stmts);
    }
}

} // verus!
