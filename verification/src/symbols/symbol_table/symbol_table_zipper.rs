use vstd::prelude::*;

use crate::ir::context::IrCtx;
use crate::ir::node::{IdentKey, KeyView, Node};

use super::{
    arena_ident, arena_items, entries_get, get_symbol, has_key, lemma_entries_get_at,
    lemma_entries_get_none, symbol_key, symbol_ok, table_ok, SymbolCollectionError, SymbolTable,
    SymbolValue, SymbolValueItem,
};

verus! {

/// The position of the first entry with key `k`, or -1.
pub open spec fn key_pos<V>(e: Seq<(IdentKey, V)>, k: KeyView) -> int
    decreases e.len(),
{
    if e.len() == 0 {
        -1
    } else if e[0].0@ == k {
        0
    } else {
        let p = key_pos(e.drop_first(), k);
        if p < 0 {
            -1
        } else {
            p + 1
        }
    }
}

pub proof fn lemma_key_pos_at<V>(e: Seq<(IdentKey, V)>, k: KeyView, i: int)
    requires
        0 <= i < e.len(),
        e[i].0@ == k,
        forall|j: int| 0 <= j < i ==> (#[trigger] e[j]).0@ != k,
    ensures
        key_pos(e, k) == i,
        entries_get(e, k) == Some(e[i].1),
    decreases i,
{
    lemma_entries_get_at(e, k, i);
    if i > 0 {
        assert(e[0].0@ != k);
        assert forall|j: int| 0 <= j < i - 1 implies (#[trigger] e.drop_first()[j]).0@ != k by {
            assert(e.drop_first()[j] == e[j + 1]);
        }
        lemma_key_pos_at(e.drop_first(), k, i - 1);
    }
}

pub proof fn lemma_key_pos_none<V>(e: Seq<(IdentKey, V)>, k: KeyView)
    requires
        forall|j: int| 0 <= j < e.len() ==> (#[trigger] e[j]).0@ != k,
    ensures
        key_pos(e, k) == -1,
    decreases e.len(),
{
    if e.len() > 0 {
        assert forall|j: int| 0 <= j < e.len() - 1 implies (#[trigger] e.drop_first()[j]).0@ != k by {
            assert(e.drop_first()[j] == e[j + 1]);
        }
        lemma_key_pos_none(e.drop_first(), k);
    }
}

/// The last of the first `visited` ordered symbols whose key is `k`.
pub open spec fn visited_lookup(
    nodes: Seq<Node>,
    items: Seq<SymbolValueItem>,
    ordered: Seq<SymbolValue>,
    visited: int,
    k: KeyView,
) -> Option<SymbolValue>
    decreases visited,
{
    if visited <= 0 {
        None
    } else if symbol_key(nodes, items, ordered[visited - 1]) == k {
        Some(ordered[visited - 1])
    } else {
        visited_lookup(nodes, items, ordered, visited - 1, k)
    }
}

/// A symbol with key `k` that is visible in scope `t` once `visited` of its
/// ordered symbols have been declared: a scope-wide symbol first, otherwise
/// the latest declared variable.
pub open spec fn scope_lookup(
    nodes: Seq<Node>,
    items: Seq<SymbolValueItem>,
    t: SymbolTable,
    visited: int,
    k: KeyView,
) -> Option<SymbolValue> {
    match entries_get(t.scope_global_table@, k) {
        Some(v) => Some(v),
        None => visited_lookup(nodes, items, t.ordered_symbols@, visited, k),
    }
}

/// A scope on the way from the global scope to the current one.
#[derive(Debug)]
pub struct SymbolTableZipperBreadcrumb {
    pub scope_name: IdentKey,
    /// The position among its parent's scopes that the current path left.
    pub position: usize,
    pub sym_table: SymbolTable,
    pub visited_symbols: usize,
}

/// The lookup through enclosing scopes, from the innermost outwards.
pub open spec fn crumbs_lookup(
    nodes: Seq<Node>,
    items: Seq<SymbolValueItem>,
    crumbs: Seq<SymbolTableZipperBreadcrumb>,
    k: KeyView,
) -> Option<SymbolValue>
    decreases crumbs.len(),
{
    if crumbs.len() == 0 {
        None
    } else {
        let c = crumbs.last();
        match scope_lookup(nodes, items, c.sym_table, c.visited_symbols as int, k) {
            Some(v) => Some(v),
            None => crumbs_lookup(nodes, items, crumbs.drop_last(), k),
        }
    }
}

/// Structure used to keep track of the current position in a symbol table:
/// the current scope, how many of its variables have been declared so far,
/// and the scopes that enclose it.
#[derive(Debug)]
pub struct SymbolTableZipper {
    pub cursor: SymbolTable,
    pub visited_symbols: usize,
    pub breadcrumb: Vec<SymbolTableZipperBreadcrumb>,
}

/// The symbol that name `k` refers to at the zipper's position.
pub open spec fn zipper_lookup(
    nodes: Seq<Node>,
    items: Seq<SymbolValueItem>,
    z: SymbolTableZipper,
    k: KeyView,
) -> Option<SymbolValue> {
    match scope_lookup(nodes, items, z.cursor, z.visited_symbols as int, k) {
        Some(v) => Some(v),
        None => crumbs_lookup(nodes, items, z.breadcrumb@, k),
    }
}

/// The zipper's counters and positions stay in range.
pub open spec fn zipper_shape(z: SymbolTableZipper) -> bool {
    &&& z.visited_symbols <= z.cursor.ordered_symbols@.len()
    &&& forall|i: int|
        0 <= i < z.breadcrumb@.len() ==> {
            let c = #[trigger] z.breadcrumb@[i];
            &&& c.visited_symbols <= c.sym_table.ordered_symbols@.len()
            &&& c.position <= c.sym_table.scopes@.len()
        }
}

/// The zipper's tables hold valid symbols and its counters stay in range.
pub open spec fn zipper_ok(nodes: Seq<Node>, items: Seq<SymbolValueItem>, aid: u32, z: SymbolTableZipper) -> bool {
    &&& zipper_shape(z)
    &&& table_ok(nodes, items, aid, z.cursor)
    &&& z.visited_symbols <= z.cursor.ordered_symbols@.len()
    &&& forall|i: int|
        0 <= i < z.breadcrumb@.len() ==> {
            let c = #[trigger] z.breadcrumb@[i];
            &&& table_ok(nodes, items, aid, c.sym_table)
            &&& c.visited_symbols <= c.sym_table.ordered_symbols@.len()
            &&& c.position <= c.sym_table.scopes@.len()
        }
}

/// `a` and `b` hold the same tables and counters.
pub open spec fn same_zipper(a: SymbolTableZipper, b: SymbolTableZipper) -> bool {
    &&& a.cursor.scope_global_table@ == b.cursor.scope_global_table@
    &&& a.cursor.ordered_symbols@ == b.cursor.ordered_symbols@
    &&& a.cursor.scopes@ == b.cursor.scopes@
    &&& a.visited_symbols == b.visited_symbols
    &&& a.breadcrumb@ == b.breadcrumb@
}

/// `n` is `o` moved into its nested scope filed (first) under `k`.
pub open spec fn entered(o: SymbolTableZipper, k: KeyView, n: SymbolTableZipper) -> bool {
    let i = key_pos(o.cursor.scopes@, k);
    &&& 0 <= i < o.cursor.scopes@.len()
    &&& n.cursor == o.cursor.scopes@[i].1
    &&& n.visited_symbols == 0
    &&& n.breadcrumb@.len() == o.breadcrumb@.len() + 1
    &&& n.breadcrumb@.drop_last() == o.breadcrumb@
    &&& n.breadcrumb@.last().scope_name == o.cursor.scopes@[i].0
    &&& n.breadcrumb@.last().position == i
    &&& n.breadcrumb@.last().visited_symbols == o.visited_symbols
    &&& n.breadcrumb@.last().sym_table.scope_global_table@ == o.cursor.scope_global_table@
    &&& n.breadcrumb@.last().sym_table.ordered_symbols@ == o.cursor.ordered_symbols@
    &&& n.breadcrumb@.last().sym_table.scopes@ == o.cursor.scopes@.remove(i)
}

/// `n` is `o` moved back out into the scope that encloses its current one.
pub open spec fn exited(o: SymbolTableZipper, n: SymbolTableZipper) -> bool {
    let c = o.breadcrumb@.last();
    &&& o.breadcrumb@.len() > 0
    &&& n.breadcrumb@ == o.breadcrumb@.drop_last()
    &&& n.visited_symbols == c.visited_symbols
    &&& n.cursor.scope_global_table@ == c.sym_table.scope_global_table@
    &&& n.cursor.ordered_symbols@ == c.sym_table.ordered_symbols@
    &&& n.cursor.scopes@ == c.sym_table.scopes@.insert(c.position as int, (c.scope_name, o.cursor))
}

/// Leaving a scope undoes entering it: the zipper holds again exactly the
/// tables and counters it held before.
pub proof fn lemma_exit_undoes_enter(
    z0: SymbolTableZipper,
    k: KeyView,
    z1: SymbolTableZipper,
    z2: SymbolTableZipper,
)
    requires
        entered(z0, k, z1),
        exited(z1, z2),
    ensures
        same_zipper(z0, z2),
{
    let i = key_pos(z0.cursor.scopes@, k);
    assert(z0.cursor.scopes@.remove(i).insert(i, (z0.cursor.scopes@[i].0, z0.cursor.scopes@[i].1)) =~= z0.cursor.scopes@);
}

/// A symbol found by a lookup is visible in the scopes of the zipper, so it
/// is one of the valid symbols that the tables hold.
pub proof fn lemma_visited_lookup_ok(
    nodes: Seq<Node>,
    items: Seq<SymbolValueItem>,
    aid: u32,
    ordered: Seq<SymbolValue>,
    visited: int,
    k: KeyView,
)
    requires
        visited <= ordered.len(),
        forall|i: int| 0 <= i < ordered.len() ==> symbol_ok(nodes, items, aid, #[trigger] ordered[i]),
    ensures
        visited_lookup(nodes, items, ordered, visited, k) matches Some(s) ==> symbol_ok(nodes, items, aid, s)
            && symbol_key(nodes, items, s) == k,
    decreases visited,
{
    if visited > 0 {
        lemma_visited_lookup_ok(nodes, items, aid, ordered, visited - 1, k);
    }
}

pub proof fn lemma_entries_get_ok(
    nodes: Seq<Node>,
    items: Seq<SymbolValueItem>,
    aid: u32,
    e: Seq<(IdentKey, SymbolValue)>,
    k: KeyView,
)
    requires
        forall|i: int| 0 <= i < e.len() ==> symbol_ok(nodes, items, aid, (#[trigger] e[i]).1),
    ensures
        entries_get(e, k) matches Some(s) ==> symbol_ok(nodes, items, aid, s),
    decreases e.len(),
{
    if e.len() > 0 {
        assert forall|i: int| 0 <= i < e.drop_first().len() implies symbol_ok(nodes, items, aid, (#[trigger] e.drop_first()[i]).1) by {
            assert(e.drop_first()[i] == e[i + 1]);
        }
        lemma_entries_get_ok(nodes, items, aid, e.drop_first(), k);
    }
}

pub proof fn lemma_crumbs_lookup_ok(
    nodes: Seq<Node>,
    items: Seq<SymbolValueItem>,
    aid: u32,
    crumbs: Seq<SymbolTableZipperBreadcrumb>,
    k: KeyView,
)
    requires
        forall|i: int|
            0 <= i < crumbs.len() ==> {
                let c = #[trigger] crumbs[i];
                &&& table_ok(nodes, items, aid, c.sym_table)
                &&& c.visited_symbols <= c.sym_table.ordered_symbols@.len()
            },
    ensures
        crumbs_lookup(nodes, items, crumbs, k) matches Some(s) ==> symbol_ok(nodes, items, aid, s),
    decreases crumbs.len(),
{
    if crumbs.len() > 0 {
        let c = crumbs.last();
        assert(table_ok(nodes, items, aid, crumbs[crumbs.len() - 1].sym_table));
        lemma_entries_get_ok(nodes, items, aid, c.sym_table.scope_global_table@, k);
        lemma_visited_lookup_ok(nodes, items, aid, c.sym_table.ordered_symbols@, c.visited_symbols as int, k);
        assert forall|i: int| 0 <= i < crumbs.drop_last().len() implies {
            let c = #[trigger] crumbs.drop_last()[i];
            &&& table_ok(nodes, items, aid, c.sym_table)
            &&& c.visited_symbols <= c.sym_table.ordered_symbols@.len()
        } by {
            assert(crumbs.drop_last()[i] == crumbs[i]);
        }
        lemma_crumbs_lookup_ok(nodes, items, aid, crumbs.drop_last(), k);
    }
}

/// Every symbol that a lookup finds is valid.
pub proof fn lemma_zipper_lookup_ok(
    nodes: Seq<Node>,
    items: Seq<SymbolValueItem>,
    aid: u32,
    z: SymbolTableZipper,
    k: KeyView,
)
    requires
        zipper_ok(nodes, items, aid, z),
    ensures
        zipper_lookup(nodes, items, z, k) matches Some(s) ==> symbol_ok(nodes, items, aid, s),
{
    lemma_entries_get_ok(nodes, items, aid, z.cursor.scope_global_table@, k);
    lemma_visited_lookup_ok(nodes, items, aid, z.cursor.ordered_symbols@, z.visited_symbols as int, k);
    lemma_crumbs_lookup_ok(nodes, items, aid, z.breadcrumb@, k);
}

/// The key of a valid symbol of the context.
pub fn symbol_key_of(ctx: &IrCtx, s: SymbolValue) -> (r: IdentKey)
    requires
        symbol_ok(ctx.nodes@, arena_items(ctx.symbols), arena_ident(ctx.symbols), s),
    ensures
        r@ == symbol_key(ctx.nodes@, arena_items(ctx.symbols), s),
{
    match get_symbol(&ctx.symbols, s.id) {
        Some(item) => item.key(ctx),
        None => unreached(),
    }
}

impl SymbolTableZipper {
    /// A zipper at the global scope of `table`, before its first variable.
    pub fn new(table: SymbolTable) -> (r: SymbolTableZipper)
        ensures
            r.cursor == table,
            r.visited_symbols == 0,
            r.breadcrumb@.len() == 0,
    {
        SymbolTableZipper { cursor: table, visited_symbols: 0, breadcrumb: Vec::new() }
    }

    /// Moves into the nested scope filed (first) under `ident`.
    #[verifier::loop_isolation(false)]
    pub fn enter_scope(&mut self, ident: &IdentKey) -> (r: Result<(), SymbolCollectionError>)
        ensures
            r is Ok <==> has_key(old(self).cursor.scopes@, ident@),
            r is Ok ==> entered(*old(self), ident@, *final(self)),
            r matches Err(e) ==> e matches SymbolCollectionError::ScopeNotFound(k) && k@ == ident@,
            r is Err ==> *final(self) == *old(self),
            zipper_shape(*old(self)) ==> zipper_shape(*final(self)),
            forall|nodes: Seq<Node>, items: Seq<SymbolValueItem>, aid: u32|
                zipper_ok(nodes, items, aid, *old(self)) ==> zipper_ok(nodes, items, aid, *final(self)),
    {
        let n = self.cursor.scopes.len();
        let mut i: usize = 0;
        while i < n
            invariant
                n == self.cursor.scopes@.len(),
                i <= n,
                *self == *old(self),
                forall|j: int| 0 <= j < i ==> (#[trigger] self.cursor.scopes@[j]).0@ != ident@,
            decreases n - i,
        {
            if self.cursor.scopes[i].0.same_as(ident) {
                proof {
                    lemma_key_pos_at(self.cursor.scopes@, ident@, i as int);
                }
                let ghost o = *self;
                assert(has_key(o.cursor.scopes@, ident@)) by {
                    assert(o.cursor.scopes@[i as int].0@ == ident@);
                }
                let (name, table) = self.cursor.scopes.remove(i);
                let mut parent = table;
                std::mem::swap(&mut self.cursor, &mut parent);
                let crumb = SymbolTableZipperBreadcrumb {
                    scope_name: name,
                    position: i,
                    sym_table: parent,
                    visited_symbols: self.visited_symbols,
                };
                self.breadcrumb.push(crumb);
                self.visited_symbols = 0;
                proof {
                    assert(self.breadcrumb@.drop_last() =~= o.breadcrumb@);
                    assert forall|nodes: Seq<Node>, items: Seq<SymbolValueItem>, aid: u32|
                        zipper_ok(nodes, items, aid, o) implies zipper_ok(nodes, items, aid, *self) by {
                        assert(table_ok(nodes, items, aid, o.cursor.scopes@[i as int].1));
                        let p = self.breadcrumb@.last().sym_table;
                        assert(table_ok(nodes, items, aid, p)) by {
                            assert forall|j: int| 0 <= j < p.scopes@.len() implies table_ok(nodes, items, aid, (#[trigger] p.scopes@[j]).1) by {
                                if j < i {
                                    assert(p.scopes@[j] == o.cursor.scopes@[j]);
                                } else {
                                    assert(p.scopes@[j] == o.cursor.scopes@[j + 1]);
                                }
                            }
                        }
                        assert forall|j: int| 0 <= j < self.breadcrumb@.len() implies {
                            let c = #[trigger] self.breadcrumb@[j];
                            &&& table_ok(nodes, items, aid, c.sym_table)
                            &&& c.visited_symbols <= c.sym_table.ordered_symbols@.len()
                            &&& c.position <= c.sym_table.scopes@.len()
                        } by {
                            if j < o.breadcrumb@.len() {
                                assert(self.breadcrumb@[j] == o.breadcrumb@[j]);
                            }
                        }
                    }
                }
                return Ok(());
            }
            i = i + 1;
        }
        proof {
            lemma_entries_get_none(self.cursor.scopes@, ident@);
        }
        Err(SymbolCollectionError::ScopeNotFound(ident.copy()))
    }

    /// Moves back out into the scope that encloses the current one, filing
    /// the current scope again where it was taken from.
    pub fn exit_scope(&mut self)
        requires
            old(self).breadcrumb@.len() > 0,
            old(self).breadcrumb@.last().position <= old(self).breadcrumb@.last().sym_table.scopes@.len(),
        ensures
            exited(*old(self), *final(self)),
            zipper_shape(*old(self)) ==> zipper_shape(*final(self)),
            forall|nodes: Seq<Node>, items: Seq<SymbolValueItem>, aid: u32|
                zipper_ok(nodes, items, aid, *old(self)) ==> zipper_ok(nodes, items, aid, *final(self)),
    {
        let ghost o = *self;
        let crumb = self.breadcrumb.pop().unwrap();
        let SymbolTableZipperBreadcrumb { scope_name, position, sym_table, visited_symbols } = crumb;
        let mut child = sym_table;
        std::mem::swap(&mut self.cursor, &mut child);
        self.cursor.scopes.insert(position, (scope_name, child));
        self.visited_symbols = visited_symbols;
        proof {
            assert forall|nodes: Seq<Node>, items: Seq<SymbolValueItem>, aid: u32|
                zipper_ok(nodes, items, aid, o) implies zipper_ok(nodes, items, aid, *self) by {
                let c = o.breadcrumb@[o.breadcrumb@.len() - 1];
                assert(table_ok(nodes, items, aid, c.sym_table));
                assert(table_ok(nodes, items, aid, self.cursor)) by {
                    assert forall|j: int| 0 <= j < self.cursor.scopes@.len() implies table_ok(nodes, items, aid, (#[trigger] self.cursor.scopes@[j]).1) by {
                        if j < position {
                            assert(self.cursor.scopes@[j] == c.sym_table.scopes@[j]);
                        } else if j > position {
                            assert(self.cursor.scopes@[j] == c.sym_table.scopes@[j - 1]);
                        }
                    }
                }
                assert forall|j: int| 0 <= j < self.breadcrumb@.len() implies {
                    let c = #[trigger] self.breadcrumb@[j];
                    &&& table_ok(nodes, items, aid, c.sym_table)
                    &&& c.visited_symbols <= c.sym_table.ordered_symbols@.len()
                    &&& c.position <= c.sym_table.scopes@.len()
                } by {
                    assert(self.breadcrumb@[j] == o.breadcrumb@[j]);
                }
            }
        }
    }

    /// Marks the next variable of the current scope as declared.
    pub fn visit_next_symbol(&mut self)
        requires
            old(self).visited_symbols < old(self).cursor.ordered_symbols@.len(),
        ensures
            final(self).visited_symbols == old(self).visited_symbols + 1,
            final(self).cursor == old(self).cursor,
            final(self).breadcrumb == old(self).breadcrumb,
    {
        let n = self.cursor.ordered_symbols.len();
        self.visited_symbols = self.visited_symbols + 1;
    }

    /// The last of the first `visited` ordered symbols of `table` with key `ident`.
    fn locate_visited_symbol(ctx: &IrCtx, table: &SymbolTable, visited: usize, ident: &IdentKey) -> (r: Option<SymbolValue>)
        requires
            visited <= table.ordered_symbols@.len(),
            table_ok(ctx.nodes@, arena_items(ctx.symbols), arena_ident(ctx.symbols), *table),
        ensures
            r == visited_lookup(ctx.nodes@, arena_items(ctx.symbols), table.ordered_symbols@, visited as int, ident@),
    {
        let mut i: usize = visited;
        while i > 0
            invariant
                i <= visited,
                visited <= table.ordered_symbols@.len(),
                table_ok(ctx.nodes@, arena_items(ctx.symbols), arena_ident(ctx.symbols), *table),
                visited_lookup(ctx.nodes@, arena_items(ctx.symbols), table.ordered_symbols@, visited as int, ident@)
                    == visited_lookup(ctx.nodes@, arena_items(ctx.symbols), table.ordered_symbols@, i as int, ident@),
            decreases i,
        {
            let s = table.ordered_symbols[i - 1];
            assert(symbol_ok(ctx.nodes@, arena_items(ctx.symbols), arena_ident(ctx.symbols), table.ordered_symbols@[i - 1]));
            let k = symbol_key_of(ctx, s);
            if k.same_as(ident) {
                return Some(s);
            }
            i = i - 1;
        }
        None
    }

    /// The symbol that `ident` refers to in the current scope: a scope-wide
    /// symbol, otherwise the latest declared variable.
    pub fn lookup_current_scope(&self, ctx: &IrCtx, ident: &IdentKey) -> (r: Option<SymbolValue>)
        requires
            zipper_ok(ctx.nodes@, arena_items(ctx.symbols), arena_ident(ctx.symbols), *self),
        ensures
            r == scope_lookup(ctx.nodes@, arena_items(ctx.symbols), self.cursor, self.visited_symbols as int, ident@),
    {
        if let Some(sym) = self.cursor.lookup_global_table(ident) {
            return Some(sym);
        }
        Self::locate_visited_symbol(ctx, &self.cursor, self.visited_symbols, ident)
    }

    /// The symbol that `ident` refers to at the current position: searched in
    /// the current scope, then in each enclosing scope from the innermost out.
    pub fn lookup(&self, ctx: &IrCtx, ident: &IdentKey) -> (r: Option<SymbolValue>)
        requires
            zipper_ok(ctx.nodes@, arena_items(ctx.symbols), arena_ident(ctx.symbols), *self),
        ensures
            r == zipper_lookup(ctx.nodes@, arena_items(ctx.symbols), *self, ident@),
            r matches Some(s) ==> symbol_ok(ctx.nodes@, arena_items(ctx.symbols), arena_ident(ctx.symbols), s),
    {
        proof {
            lemma_zipper_lookup_ok(ctx.nodes@, arena_items(ctx.symbols), arena_ident(ctx.symbols), *self, ident@);
        }
        if let Some(value) = self.lookup_current_scope(ctx, ident) {
            return Some(value);
        }
        let mut i: usize = self.breadcrumb.len();
        assert(self.breadcrumb@.subrange(0, i as int) =~= self.breadcrumb@);
        while i > 0
            invariant
                i <= self.breadcrumb@.len(),
                zipper_ok(ctx.nodes@, arena_items(ctx.symbols), arena_ident(ctx.symbols), *self),
                zipper_lookup(ctx.nodes@, arena_items(ctx.symbols), *self, ident@) matches Some(s)
                    ==> symbol_ok(ctx.nodes@, arena_items(ctx.symbols), arena_ident(ctx.symbols), s),
                zipper_lookup(ctx.nodes@, arena_items(ctx.symbols), *self, ident@)
                    == crumbs_lookup(ctx.nodes@, arena_items(ctx.symbols), self.breadcrumb@.subrange(0, i as int), ident@),
            decreases i,
        {
            let ghost sub = self.breadcrumb@.subrange(0, i as int);
            assert(sub.last() == self.breadcrumb@[i - 1]);
            assert(sub.drop_last() =~= self.breadcrumb@.subrange(0, i - 1));
            let c = &self.breadcrumb[i - 1];
            if let Some(value) = c.sym_table.lookup_global_table(ident) {
                return Some(value);
            }
            if let Some(value) = Self::locate_visited_symbol(ctx, &c.sym_table, c.visited_symbols, ident) {
                return Some(value);
            }
            i = i - 1;
        }
        None
    }

    /// Moves back to the global scope, before its first variable, putting
    /// every scope entered back in its place.
    pub fn reset(&mut self)
        requires
            zipper_shape(*old(self)),
        ensures
            zipper_shape(*final(self)),
            final(self).breadcrumb@.len() == 0,
            final(self).visited_symbols == 0,
            old(self).breadcrumb@.len() == 0 ==> final(self).cursor == old(self).cursor,
            crate::ir::ir_walker::table_view(final(self).cursor) == crate::ir::ir_walker::rooted(
                crate::ir::ir_walker::table_view(old(self).cursor), old(self).breadcrumb@),
            forall|nodes: Seq<Node>, items: Seq<SymbolValueItem>, aid: u32|
                zipper_ok(nodes, items, aid, *old(self)) ==> zipper_ok(nodes, items, aid, *final(self)),
    {
        let ghost o = *self;
        while self.breadcrumb.len() > 0
            invariant
                forall|nodes: Seq<Node>, items: Seq<SymbolValueItem>, aid: u32|
                    zipper_ok(nodes, items, aid, o) ==> zipper_ok(nodes, items, aid, *self),
                o.breadcrumb@.len() == 0 ==> *self == o,
                zipper_shape(*self),
                crate::ir::ir_walker::rooted(crate::ir::ir_walker::table_view(self.cursor), self.breadcrumb@)
                    == crate::ir::ir_walker::rooted(crate::ir::ir_walker::table_view(o.cursor), o.breadcrumb@),
            decreases self.breadcrumb@.len(),
        {
            let ghost before = *self;
            self.exit_scope();
            proof { crate::ir::ir_walker::lemma_exit_keeps_root(before, *self); }
        }
        self.visited_symbols = 0;
    }
}

/// What the scope of breadcrumb `c` files under `k`, with the variables
/// declared so far in it.
pub open spec fn crumb_lookup(nodes: Seq<Node>, items: Seq<SymbolValueItem>, c: SymbolTableZipperBreadcrumb, k: KeyView) -> Option<SymbolValue> {
    scope_lookup(nodes, items, c.sym_table, c.visited_symbols as int, k)
}

/// Looking a name up among enclosing scopes finds it in the innermost one
/// that has it: the lookup gives `s` exactly when some enclosing scope gives
/// `s` and no scope nested inside that one has the name.
pub proof fn lemma_crumbs_lookup_innermost(
    nodes: Seq<Node>,
    items: Seq<SymbolValueItem>,
    crumbs: Seq<SymbolTableZipperBreadcrumb>,
    k: KeyView,
    s: SymbolValue,
)
    ensures
        crumbs_lookup(nodes, items, crumbs, k) == Some(s) <==> exists|i: int|
            0 <= i < crumbs.len() && crumb_lookup(nodes, items, #[trigger] crumbs[i], k) == Some(s)
                && forall|j: int| i < j < crumbs.len() ==> crumb_lookup(nodes, items, #[trigger] crumbs[j], k) is None,
        crumbs_lookup(nodes, items, crumbs, k) is None <==> forall|j: int|
            0 <= j < crumbs.len() ==> crumb_lookup(nodes, items, #[trigger] crumbs[j], k) is None,
    decreases crumbs.len(),
{
    if crumbs.len() > 0 {
        let init = crumbs.drop_last();
        let n = crumbs.len() - 1;
        lemma_crumbs_lookup_innermost(nodes, items, init, k, s);
        assert forall|j: int| 0 <= j < n implies #[trigger] init[j] == crumbs[j] by {}
        if crumb_lookup(nodes, items, crumbs[n], k) is Some {
            if crumb_lookup(nodes, items, crumbs[n], k) != Some(s) {
                assert forall|i: int| 0 <= i < crumbs.len() && crumb_lookup(nodes, items, #[trigger] crumbs[i], k) == Some(s)
                    implies !(forall|j: int| i < j < crumbs.len() ==> crumb_lookup(nodes, items, #[trigger] crumbs[j], k) is None) by {
                    assert(i != n);
                    assert(crumb_lookup(nodes, items, crumbs[n], k) is Some);
                }
            }
        } else {
            if exists|i: int| 0 <= i < crumbs.len() && crumb_lookup(nodes, items, #[trigger] crumbs[i], k) == Some(s)
                && forall|j: int| i < j < crumbs.len() ==> crumb_lookup(nodes, items, #[trigger] crumbs[j], k) is None {
                let i = choose|i: int| 0 <= i < crumbs.len() && crumb_lookup(nodes, items, #[trigger] crumbs[i], k) == Some(s)
                    && forall|j: int| i < j < crumbs.len() ==> crumb_lookup(nodes, items, #[trigger] crumbs[j], k) is None;
                assert(i < n);
                assert(init[i] == crumbs[i]);
                assert forall|j: int| i < j < init.len() implies crumb_lookup(nodes, items, #[trigger] init[j], k) is None by {
                    assert(init[j] == crumbs[j]);
                }
            }
            if crumbs_lookup(nodes, items, init, k) == Some(s) {
                let i = choose|i: int| 0 <= i < init.len() && crumb_lookup(nodes, items, #[trigger] init[i], k) == Some(s)
                    && forall|j: int| i < j < init.len() ==> crumb_lookup(nodes, items, #[trigger] init[j], k) is None;
                assert(crumbs[i] == init[i]);
                assert forall|j: int| i < j < crumbs.len() implies crumb_lookup(nodes, items, #[trigger] crumbs[j], k) is None by {
                    if j < n {
                        assert(init[j] == crumbs[j]);
                    }
                }
            }
            if forall|j: int| 0 <= j < init.len() ==> crumb_lookup(nodes, items, #[trigger] init[j], k) is None {
                assert forall|j: int| 0 <= j < crumbs.len() implies crumb_lookup(nodes, items, #[trigger] crumbs[j], k) is None by {
                    if j < n {
                        assert(init[j] == crumbs[j]);
                    }
                }
            }
            if forall|j: int| 0 <= j < crumbs.len() ==> crumb_lookup(nodes, items, #[trigger] crumbs[j], k) is None {
                assert forall|j: int| 0 <= j < init.len() implies crumb_lookup(nodes, items, #[trigger] init[j], k) is None by {
                    assert(init[j] == crumbs[j]);
                }
            }
        }
    }
}

/// A name is looked up in the current scope first: where the current scope
/// has it (among its scope-wide symbols and the variables declared so far),
/// that is what it refers to, whatever the enclosing scopes hold.
pub proof fn lemma_lookup_current_scope_first(
    nodes: Seq<Node>,
    items: Seq<SymbolValueItem>,
    z: SymbolTableZipper,
    k: KeyView,
    s: SymbolValue,
)
    requires
        scope_lookup(nodes, items, z.cursor, z.visited_symbols as int, k) == Some(s),
    ensures
        zipper_lookup(nodes, items, z, k) == Some(s),
{
}

/// Where the current scope does not have a name, it refers to what the
/// innermost enclosing scope that has it holds, and to nothing when none
/// has it.
pub proof fn lemma_lookup_enclosing_scopes(
    nodes: Seq<Node>,
    items: Seq<SymbolValueItem>,
    z: SymbolTableZipper,
    k: KeyView,
    s: SymbolValue,
)
    requires
        scope_lookup(nodes, items, z.cursor, z.visited_symbols as int, k) is None,
    ensures
        zipper_lookup(nodes, items, z, k) == Some(s) <==> exists|i: int|
            0 <= i < z.breadcrumb@.len() && crumb_lookup(nodes, items, #[trigger] z.breadcrumb@[i], k) == Some(s)
                && forall|j: int| i < j < z.breadcrumb@.len() ==> crumb_lookup(nodes, items, #[trigger] z.breadcrumb@[j], k) is None,
        zipper_lookup(nodes, items, z, k) is None <==> forall|j: int|
            0 <= j < z.breadcrumb@.len() ==> crumb_lookup(nodes, items, #[trigger] z.breadcrumb@[j], k) is None,
{
    lemma_crumbs_lookup_innermost(nodes, items, z.breadcrumb@, k, s);
}

/// Among the variables of a scope, a name refers to the one declared last
/// of those declared so far (the first `visited`): the lookup gives `s`
/// exactly when `s` is one of them, has the name, and none declared after
/// it, up to `visited`, has the name.
pub proof fn lemma_visited_lookup_latest(
    nodes: Seq<Node>,
    items: Seq<SymbolValueItem>,
    ordered: Seq<SymbolValue>,
    visited: int,
    k: KeyView,
    s: SymbolValue,
)
    requires
        0 <= visited <= ordered.len(),
    ensures
        visited_lookup(nodes, items, ordered, visited, k) == Some(s) <==> exists|i: int|
            0 <= i < visited && #[trigger] ordered[i] == s && symbol_key(nodes, items, ordered[i]) == k
                && forall|j: int| i < j < visited ==> symbol_key(nodes, items, #[trigger] ordered[j]) != k,
        visited_lookup(nodes, items, ordered, visited, k) is None <==> forall|j: int|
            0 <= j < visited ==> symbol_key(nodes, items, #[trigger] ordered[j]) != k,
    decreases visited,
{
    if visited > 0 {
        lemma_visited_lookup_latest(nodes, items, ordered, visited - 1, k, s);
        if symbol_key(nodes, items, ordered[visited - 1]) == k {
            if ordered[visited - 1] != s {
                assert forall|i: int| 0 <= i < visited && #[trigger] ordered[i] == s && symbol_key(nodes, items, ordered[i]) == k
                    implies !(forall|j: int| i < j < visited ==> symbol_key(nodes, items, #[trigger] ordered[j]) != k) by {
                    assert(i != visited - 1);
                    assert(symbol_key(nodes, items, ordered[visited - 1]) == k);
                }
            }
        }
    }
}

/// In a scope, a symbol filed for the whole scope under a name comes before
/// its variables of that name; otherwise the name refers to the variable of
/// that name declared last so far.
pub proof fn lemma_scope_lookup_order(
    nodes: Seq<Node>,
    items: Seq<SymbolValueItem>,
    t: SymbolTable,
    visited: int,
    k: KeyView,
    s: SymbolValue,
)
    requires
        0 <= visited <= t.ordered_symbols@.len(),
    ensures
        entries_get(t.scope_global_table@, k) == Some(s) ==> scope_lookup(nodes, items, t, visited, k) == Some(s),
        entries_get(t.scope_global_table@, k) is None ==> (scope_lookup(nodes, items, t, visited, k) == Some(s) <==> exists|i: int|
            0 <= i < visited && #[trigger] t.ordered_symbols@[i] == s && symbol_key(nodes, items, t.ordered_symbols@[i]) == k
                && forall|j: int| i < j < visited ==> symbol_key(nodes, items, #[trigger] t.ordered_symbols@[j]) != k),
{
    lemma_visited_lookup_latest(nodes, items, t.ordered_symbols@, visited, k, s);
}

} // verus!
