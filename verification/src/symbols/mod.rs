use vstd::prelude::*;

use crate::ir::context::IrCtx;
use crate::ir::node::{is_var, Ident, KeyView, Node, NodeRef};
use crate::ir::text::chars_eq;

pub mod builtin_types;
pub mod symbol_collector;
pub mod symbol_resolver;
pub mod symbol_table;
pub mod symbol_walker;

verus! {

/// Errors of the flat table of variables.
#[derive(Debug)]
pub enum SymbolsError {
    SymbolAlreadyExistsInScope(Ident),
    ScopeNotFound(Ident),
    MovePastGlobelScope,
}

/// A table of the variables declared in one scope, by name, and the tables
/// of the scopes nested in it.
#[derive(Debug)]
pub struct SymbolTable {
    /// The declared variables (nodes of kind `VarDecl`), each with its name.
    pub table: Vec<(Ident, NodeRef)>,
    /// Nested scopes, by name.
    pub scopes: Vec<(Ident, SymbolTable)>,
}

/// The value filed under the first entry named `n`.
pub open spec fn named_get<V>(e: Seq<(Ident, V)>, n: Seq<char>) -> Option<V>
    decreases e.len(),
{
    if e.len() == 0 {
        None
    } else if e[0].0.name@ == n {
        Some(e[0].1)
    } else {
        named_get(e.drop_first(), n)
    }
}

/// Whether an entry is named `n`.
pub open spec fn has_name<V>(e: Seq<(Ident, V)>, n: Seq<char>) -> bool {
    exists|i: int| 0 <= i < e.len() && (#[trigger] e[i]).0.name@ == n
}

pub proof fn lemma_named_get_at<V>(e: Seq<(Ident, V)>, n: Seq<char>, i: int)
    requires
        0 <= i < e.len(),
        e[i].0.name@ == n,
        forall|j: int| 0 <= j < i ==> (#[trigger] e[j]).0.name@ != n,
    ensures
        named_get(e, n) == Some(e[i].1),
    decreases i,
{
    if i > 0 {
        assert(e[0].0.name@ != n);
        assert forall|j: int| 0 <= j < i - 1 implies (#[trigger] e.drop_first()[j]).0.name@ != n by {
            assert(e.drop_first()[j] == e[j + 1]);
        }
        lemma_named_get_at(e.drop_first(), n, i - 1);
    }
}

pub proof fn lemma_named_get_none<V>(e: Seq<(Ident, V)>, n: Seq<char>)
    requires
        forall|j: int| 0 <= j < e.len() ==> (#[trigger] e[j]).0.name@ != n,
    ensures
        named_get(e, n) is None,
        !has_name(e, n),
    decreases e.len(),
{
    if e.len() > 0 {
        assert forall|j: int| 0 <= j < e.len() - 1 implies (#[trigger] e.drop_first()[j]).0.name@ != n by {
            assert(e.drop_first()[j] == e[j + 1]);
        }
        lemma_named_get_none(e.drop_first(), n);
    }
}

/// The name of the variable declaration at node `v`.
pub open spec fn var_name(nodes: Seq<Node>, v: NodeRef) -> Seq<char> {
    nodes[v as int]->VarDecl_0.name.name@
}

/// The position of the first entry named `n`.
fn find_named<V>(e: &Vec<(Ident, V)>, n: &Vec<char>) -> (r: Option<usize>)
    ensures
        r is None ==> !has_name(e@, n@) && named_get(e@, n@) is None,
        r matches Some(i) ==> i < e@.len() && e@[i as int].0.name@ == n@ && named_get(e@, n@) == Some(e@[i as int].1)
            && has_name(e@, n@),
{
    let mut i: usize = 0;
    while i < e.len()
        invariant
            i <= e@.len(),
            forall|j: int| 0 <= j < i ==> (#[trigger] e@[j]).0.name@ != n@,
        decreases e@.len() - i,
    {
        if chars_eq(&e[i].0.name, n) {
            proof { lemma_named_get_at(e@, n@, i as int); }
            return Some(i);
        }
        i = i + 1;
    }
    proof { lemma_named_get_none(e@, n@); }
    None
}

impl SymbolTable {
    /// An empty table.
    pub fn new() -> (r: SymbolTable)
        ensures
            r.table@.len() == 0,
            r.scopes@.len() == 0,
    {
        SymbolTable { table: Vec::new(), scopes: Vec::new() }
    }

    /// Files the variable declaration `val` under its name, unless a variable
    /// of that name is filed already.
    pub fn insert(&mut self, ctx: &IrCtx, val: NodeRef) -> (r: Result<(), SymbolsError>)
        requires
            is_var(ctx.nodes@, val as int),
        ensures
            final(self).scopes@ == old(self).scopes@,
            has_name(old(self).table@, var_name(ctx.nodes@, val)) ==> {
                &&& r matches Err(SymbolsError::SymbolAlreadyExistsInScope(n))
                &&& n.name@ == var_name(ctx.nodes@, val)
                &&& final(self).table@ == old(self).table@
            },
            !has_name(old(self).table@, var_name(ctx.nodes@, val)) ==> {
                &&& r is Ok
                &&& final(self).table@.len() == old(self).table@.len() + 1
                &&& final(self).table@.drop_last() == old(self).table@
                &&& final(self).table@.last().0.name@ == var_name(ctx.nodes@, val)
                &&& final(self).table@.last().1 == val
            },
    {
        let name = match &ctx.nodes[val] {
            Node::VarDecl(d) => d.name.copy(),
            _ => { return unreached(); },
        };
        match find_named(&self.table, &name.name) {
            Some(_) => Err(SymbolsError::SymbolAlreadyExistsInScope(name)),
            None => {
                let ghost prev = self.table@;
                self.table.push((name, val));
                assert(self.table@.drop_last() =~= prev);
                Ok(())
            },
        }
    }

    /// Files `scope` under `ident`, unless a scope of that name is filed already.
    pub fn insert_scope(&mut self, ident: Ident, scope: SymbolTable) -> (r: Result<(), SymbolsError>)
        ensures
            final(self).table@ == old(self).table@,
            has_name(old(self).scopes@, ident.name@) ==> r is Err && final(self).scopes@ == old(self).scopes@,
            !has_name(old(self).scopes@, ident.name@) ==> r is Ok && final(self).scopes@ == old(self).scopes@.push((ident, scope)),
    {
        match find_named(&self.scopes, &ident.name) {
            Some(_) => Err(SymbolsError::SymbolAlreadyExistsInScope(ident)),
            None => {
                self.scopes.push((ident, scope));
                Ok(())
            },
        }
    }

    /// Takes the first scope named `ident` out of the table.
    pub fn remove_scope(&mut self, ident: &Ident) -> (r: Option<SymbolTable>)
        ensures
            final(self).table@ == old(self).table@,
            r is Some <==> has_name(old(self).scopes@, ident.name@),
            r is Some ==> named_get(old(self).scopes@, ident.name@) == r
                && final(self).scopes@.len() == old(self).scopes@.len() - 1,
            r is None ==> final(self).scopes@ == old(self).scopes@,
    {
        match find_named(&self.scopes, &ident.name) {
            Some(i) => {
                let (_, t) = self.scopes.remove(i);
                Some(t)
            },
            None => None,
        }
    }

    /// The variable filed under the name of `ident`.
    pub fn locate(&self, ident: &Ident) -> (r: Option<NodeRef>)
        ensures
            r == named_get(self.table@, ident.name@),
    {
        match find_named(&self.table, &ident.name) {
            Some(i) => Some(self.table[i].1),
            None => None,
        }
    }
}

} // verus!
