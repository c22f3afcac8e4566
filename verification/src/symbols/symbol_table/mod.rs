use vstd::prelude::*;

use id_arena::{Arena, DefaultArenaBehavior, Id};

use crate::ir::context::IrCtx;
use crate::ir::node::{is_enum, is_expr, is_func, is_struct, is_var, Expr, IdentKey, KeyView, Node, NodeRef};
use crate::ir::types::{builtin_name, BuiltinType};

pub mod symbol_table_zipper;

verus! {

/// Declares `id_arena::Arena` to Verus; values of it are opaque.
#[verifier::external_type_specification]
#[verifier::external_body]
#[verifier::reject_recursive_types(T)]
#[verifier::reject_recursive_types(A)]
pub struct ExArena<T, A>(Arena<T, A>);

/// Declares `id_arena::Id` to Verus; values of it are opaque.
#[verifier::external_type_specification]
#[verifier::external_body]
#[verifier::reject_recursive_types(T)]
pub struct ExId<T>(Id<T>);

/// Declares `id_arena::DefaultArenaBehavior` to Verus.
#[verifier::external_type_specification]
#[verifier::external_body]
#[verifier::reject_recursive_types(T)]
pub struct ExDefaultArenaBehavior<T>(DefaultArenaBehavior<T>);

/// The items that an arena of symbols holds, in the order of allocation.
pub uninterp spec fn arena_items(a: Arena<SymbolValueItem>) -> Seq<SymbolValueItem>;

/// The arena identifier that `id_arena` stores in every arena of symbols.
pub uninterp spec fn arena_ident(a: Arena<SymbolValueItem>) -> u32;

/// The position that an `id_arena::Id` of a symbol refers to (`Id::index`).
pub uninterp spec fn id_index(id: Id<SymbolValueItem>) -> usize;

/// The arena identifier that `id_arena` stores in every `Id` of a symbol.
pub uninterp spec fn id_arena_ident(id: Id<SymbolValueItem>) -> u32;

/// `Arena::new`: the new arena holds no items. Its arena identifier comes
/// from a process-wide counter and is left unsaid.
#[verifier::external_body]
pub(crate) fn new_symbol_arena() -> (r: Arena<SymbolValueItem>)
    ensures
        arena_items(r) == Seq::<SymbolValueItem>::empty(),
{
    Arena::new()
}

/// `Arena::alloc`: appends `item`; the returned `Id` carries the arena's
/// identifier and the position of the new item.
#[verifier::external_body]
pub(crate) fn alloc_symbol(arena: &mut Arena<SymbolValueItem>, item: SymbolValueItem) -> (r: Id<
    SymbolValueItem,
>)
    requires
        arena_items(*old(arena)).len() < usize::MAX,
    ensures
        arena_items(*final(arena)) == arena_items(*old(arena)).push(item),
        arena_ident(*final(arena)) == arena_ident(*old(arena)),
        id_index(r) == arena_items(*old(arena)).len(),
        id_arena_ident(r) == arena_ident(*old(arena)),
{
    arena.alloc(item)
}

/// `Arena::get` (with the item copied out): the item at the position of `id`
/// when `id` carries this arena's identifier and the position is taken,
/// otherwise nothing.
#[verifier::external_body]
pub(crate) fn get_symbol(arena: &Arena<SymbolValueItem>, id: Id<SymbolValueItem>) -> (r: Option<
    SymbolValueItem,
>)
    ensures
        (id_arena_ident(id) == arena_ident(*arena) && id_index(id) < arena_items(*arena).len())
            ==> r == Some(arena_items(*arena)[id_index(id) as int]),
        !(id_arena_ident(id) == arena_ident(*arena) && id_index(id) < arena_items(*arena).len())
            ==> r is None,
{
    arena.get(id).copied()
}

/// `Arena::len`: the number of items allocated so far. The items live in a
/// `Vec` of a type that is not zero-sized, and a `Vec` never holds more than
/// `isize::MAX` bytes, so the count is at most `isize::MAX`.
#[verifier::external_body]
pub(crate) fn symbol_arena_len(arena: &Arena<SymbolValueItem>) -> (r: usize)
    ensures
        r == arena_items(*arena).len(),
        r <= isize::MAX,
{
    arena.len()
}

/// `Id::index`.
#[verifier::external_body]
pub(crate) fn symbol_id_index(id: Id<SymbolValueItem>) -> (r: usize)
    ensures
        r == id_index(id),
{
    id.index()
}

/// What a symbol stands for.
#[derive(Debug, Clone, Copy)]
pub enum SymbolValueItem {
    BuiltinType(BuiltinType),
    VarDecl(NodeRef),
    FuncDecl(NodeRef),
    FuncArg(NodeRef, usize),
    StructDecl(NodeRef),
    StructAttr(NodeRef, usize),
    StructInit(NodeRef),
    EnumDecl(NodeRef),
    EnumValue(NodeRef, usize),
}

/// A symbol: a reference into the symbol arena of a context.
#[derive(Debug, Clone, Copy)]
pub struct SymbolValue {
    pub id: Id<SymbolValueItem>,
}

impl SymbolValue {
    /// The position of this symbol in the symbol arena.
    pub fn index(&self) -> (r: usize)
        ensures
            r == id_index(self.id),
    {
        symbol_id_index(self.id)
    }

    /// What kind of thing this symbol stands for, as messages name it.
    pub fn describe_type(&self, ctx: &IrCtx) -> (r: &'static str)
        requires
            ctx_symbol_ok(ctx, *self),
        ensures
            r@ == describe_item(symbol_item(arena_items(ctx.symbols), *self)),
    {
        proof {
            reveal_strlit("builtin type");
            reveal_strlit("variable");
            reveal_strlit("function");
            reveal_strlit("function argument");
            reveal_strlit("struct declaration");
            reveal_strlit("struct attribute");
            reveal_strlit("struct");
            reveal_strlit("enum");
            reveal_strlit("enum value");
        }
        match get_symbol(&ctx.symbols, self.id) {
            Some(SymbolValueItem::BuiltinType(_)) => "builtin type",
            Some(SymbolValueItem::VarDecl(_)) => "variable",
            Some(SymbolValueItem::FuncDecl(_)) => "function",
            Some(SymbolValueItem::FuncArg(..)) => "function argument",
            Some(SymbolValueItem::StructDecl(_)) => "struct declaration",
            Some(SymbolValueItem::StructAttr(..)) => "struct attribute",
            Some(SymbolValueItem::StructInit(_)) => "struct",
            Some(SymbolValueItem::EnumDecl(_)) => "enum",
            Some(SymbolValueItem::EnumValue(..)) => "enum value",
            None => unreached(),
        }
    }

    /// The item that this symbol stands for in the symbols of `ctx`, if it
    /// is a symbol of that context.
    pub fn item(&self, ctx: &IrCtx) -> (r: Option<SymbolValueItem>)
        ensures
            (id_arena_ident(self.id) == arena_ident(ctx.symbols) && id_index(self.id) < arena_items(ctx.symbols).len())
                ==> r == Some(arena_items(ctx.symbols)[id_index(self.id) as int]),
            !(id_arena_ident(self.id) == arena_ident(ctx.symbols) && id_index(self.id) < arena_items(ctx.symbols).len())
                ==> r is None,
    {
        get_symbol(&ctx.symbols, self.id)
    }

    /// The struct declaration that this symbol stands for; it must stand for
    /// one.
    pub fn unwrap_struct(&self, ctx: &IrCtx) -> (r: NodeRef)
        requires
            ctx_symbol_ok(ctx, *self),
            symbol_item(arena_items(ctx.symbols), *self) is StructDecl,
        ensures
            symbol_item(arena_items(ctx.symbols), *self) == SymbolValueItem::StructDecl(r),
    {
        match get_symbol(&ctx.symbols, self.id) {
            Some(SymbolValueItem::StructDecl(d)) => d,
            _ => unreached(),
        }
    }

    /// The enum declaration that this symbol stands for; it must stand for
    /// one.
    pub fn unwrap_enum(&self, ctx: &IrCtx) -> (r: NodeRef)
        requires
            ctx_symbol_ok(ctx, *self),
            symbol_item(arena_items(ctx.symbols), *self) is EnumDecl,
        ensures
            symbol_item(arena_items(ctx.symbols), *self) == SymbolValueItem::EnumDecl(r),
    {
        match get_symbol(&ctx.symbols, self.id) {
            Some(SymbolValueItem::EnumDecl(d)) => d,
            _ => unreached(),
        }
    }
}

/// Errors while filing symbols into scopes.
#[derive(Debug)]
pub enum SymbolCollectionError {
    SymbolAlreadyExistsInScope { new: IdentKey, existing: SymbolValue },
    ScopeNotFound(IdentKey),
}

/// The item refers to nodes of the kinds it names.
pub open spec fn item_ok(nodes: Seq<Node>, item: SymbolValueItem) -> bool {
    match item {
        SymbolValueItem::BuiltinType(_) => true,
        SymbolValueItem::VarDecl(r) => is_var(nodes, r as int),
        SymbolValueItem::FuncDecl(r) => is_func(nodes, r as int),
        SymbolValueItem::FuncArg(r, k) => is_func(nodes, r as int) && k < nodes[r as int]->Function_0.args@.len(),
        SymbolValueItem::StructDecl(r) => is_struct(nodes, r as int),
        SymbolValueItem::StructAttr(r, k) => is_struct(nodes, r as int) && k < nodes[r as int]->Struct_0.attrs@.len(),
        SymbolValueItem::StructInit(r) => is_expr(nodes, r as int) && nodes[r as int]->Expr_0 is StructInit,
        SymbolValueItem::EnumDecl(r) => is_enum(nodes, r as int),
        SymbolValueItem::EnumValue(r, k) => is_enum(nodes, r as int) && k < nodes[r as int]->Enum_0.values@.len(),
    }
}

/// The key under which an item is filed: its name, or, for a function
/// without a name, its node.
pub open spec fn item_key(nodes: Seq<Node>, item: SymbolValueItem) -> KeyView {
    match item {
        SymbolValueItem::BuiltinType(b) => KeyView::Named(builtin_name(b)),
        SymbolValueItem::VarDecl(r) => KeyView::Named(nodes[r as int]->VarDecl_0.name.name@),
        SymbolValueItem::FuncDecl(r) => match nodes[r as int]->Function_0.name {
            Some(n) => KeyView::Named(n.name@),
            None => KeyView::Anonymous(r),
        },
        SymbolValueItem::FuncArg(r, k) => KeyView::Named(nodes[r as int]->Function_0.args@[k as int].name.name@),
        SymbolValueItem::StructDecl(r) => KeyView::Named(nodes[r as int]->Struct_0.name.name@),
        SymbolValueItem::StructAttr(r, k) => KeyView::Named(nodes[r as int]->Struct_0.attrs@[k as int].name.name@),
        SymbolValueItem::StructInit(r) => KeyView::Named(nodes[r as int]->Expr_0->StructInit_struct_name.name@),
        SymbolValueItem::EnumDecl(r) => KeyView::Named(nodes[r as int]->Enum_0.name.name@),
        SymbolValueItem::EnumValue(r, k) => KeyView::Named(nodes[r as int]->Enum_0.values@[k as int].name.name@),
    }
}

/// Whether an item only becomes visible at the point of its declaration.
pub open spec fn spec_is_order_dependent(item: SymbolValueItem) -> bool {
    item is VarDecl
}

impl SymbolValueItem {
    /// Whether this item only becomes visible at the point of its
    /// declaration (variables), rather than in its whole scope.
    pub fn is_order_dependent(&self) -> (r: bool)
        ensures
            r == spec_is_order_dependent(*self),
    {
        match self {
            SymbolValueItem::VarDecl(_) => true,
            _ => false,
        }
    }

    /// The key under which this item is filed.
    pub fn key(&self, ctx: &IrCtx) -> (r: IdentKey)
        requires
            item_ok(ctx.nodes@, *self),
        ensures
            r@ == item_key(ctx.nodes@, *self),
    {
        match *self {
            SymbolValueItem::BuiltinType(b) => IdentKey::Named(crate::symbols::builtin_types::builtin_chars(b)),
            SymbolValueItem::VarDecl(r) => match &ctx.nodes[r] {
                Node::VarDecl(v) => v.name.key(),
                _ => unreached(),
            },
            SymbolValueItem::FuncDecl(r) => match &ctx.nodes[r] {
                Node::Function(f, _) => match &f.name {
                    Some(n) => n.key(),
                    None => IdentKey::Anonymous(r),
                },
                _ => unreached(),
            },
            SymbolValueItem::FuncArg(r, k) => match &ctx.nodes[r] {
                Node::Function(f, _) => f.args[k].name.key(),
                _ => unreached(),
            },
            SymbolValueItem::StructDecl(r) => match &ctx.nodes[r] {
                Node::Struct(s) => s.name.key(),
                _ => unreached(),
            },
            SymbolValueItem::StructAttr(r, k) => match &ctx.nodes[r] {
                Node::Struct(s) => s.attrs[k].name.key(),
                _ => unreached(),
            },
            SymbolValueItem::StructInit(r) => match &ctx.nodes[r] {
                Node::Expr(Expr::StructInit { struct_name, .. }, _) => struct_name.key(),
                _ => unreached(),
            },
            SymbolValueItem::EnumDecl(r) => match &ctx.nodes[r] {
                Node::Enum(e) => e.name.key(),
                _ => unreached(),
            },
            SymbolValueItem::EnumValue(r, k) => match &ctx.nodes[r] {
                Node::Enum(e) => e.values[k].name.key(),
                _ => unreached(),
            },
        }
    }
}

} // verus!

verus! {

/// How messages name the kind of thing an item stands for.
pub open spec fn describe_item(item: SymbolValueItem) -> Seq<char> {
    match item {
        SymbolValueItem::BuiltinType(_) => "builtin type"@,
        SymbolValueItem::VarDecl(_) => "variable"@,
        SymbolValueItem::FuncDecl(_) => "function"@,
        SymbolValueItem::FuncArg(..) => "function argument"@,
        SymbolValueItem::StructDecl(_) => "struct declaration"@,
        SymbolValueItem::StructAttr(..) => "struct attribute"@,
        SymbolValueItem::StructInit(_) => "struct"@,
        SymbolValueItem::EnumDecl(_) => "enum"@,
        SymbolValueItem::EnumValue(..) => "enum value"@,
    }
}

/// The symbol refers to an item of the arena `items` (whose identifier is
/// `aid`) that refers to nodes of the right kinds.
pub open spec fn symbol_ok(nodes: Seq<Node>, items: Seq<SymbolValueItem>, aid: u32, s: SymbolValue) -> bool {
    &&& id_arena_ident(s.id) == aid
    &&& id_index(s.id) < items.len()
    &&& item_ok(nodes, items[id_index(s.id) as int])
}

/// The item that a valid symbol refers to.
pub open spec fn symbol_item(items: Seq<SymbolValueItem>, s: SymbolValue) -> SymbolValueItem {
    items[id_index(s.id) as int]
}

/// The key of a valid symbol.
pub open spec fn symbol_key(nodes: Seq<Node>, items: Seq<SymbolValueItem>, s: SymbolValue) -> KeyView {
    item_key(nodes, symbol_item(items, s))
}

/// The symbols of the context are valid and the nodes well formed.
pub open spec fn ctx_symbol_ok(ctx: &IrCtx, s: SymbolValue) -> bool {
    symbol_ok(ctx.nodes@, arena_items(ctx.symbols), arena_ident(ctx.symbols), s)
}

/// The value filed under the first entry with key `k`.
pub open spec fn entries_get<V>(e: Seq<(IdentKey, V)>, k: KeyView) -> Option<V>
    decreases e.len(),
{
    if e.len() == 0 {
        None
    } else if e[0].0@ == k {
        Some(e[0].1)
    } else {
        entries_get(e.drop_first(), k)
    }
}

/// Whether an entry has key `k`.
pub open spec fn has_key<V>(e: Seq<(IdentKey, V)>, k: KeyView) -> bool {
    exists|i: int| 0 <= i < e.len() && (#[trigger] e[i]).0@ == k
}

pub proof fn lemma_entries_get_at<V>(e: Seq<(IdentKey, V)>, k: KeyView, i: int)
    requires
        0 <= i < e.len(),
        e[i].0@ == k,
        forall|j: int| 0 <= j < i ==> (#[trigger] e[j]).0@ != k,
    ensures
        entries_get(e, k) == Some(e[i].1),
    decreases i,
{
    if i > 0 {
        assert(e[0].0@ != k);
        assert forall|j: int| 0 <= j < i - 1 implies (#[trigger] e.drop_first()[j]).0@ != k by {
            assert(e.drop_first()[j] == e[j + 1]);
        }
        lemma_entries_get_at(e.drop_first(), k, i - 1);
    }
}

pub proof fn lemma_entries_get_none<V>(e: Seq<(IdentKey, V)>, k: KeyView)
    requires
        forall|j: int| 0 <= j < e.len() ==> (#[trigger] e[j]).0@ != k,
    ensures
        entries_get(e, k) is None,
        !has_key(e, k),
    decreases e.len(),
{
    if e.len() > 0 {
        assert(e[0].0@ != k);
        assert forall|j: int| 0 <= j < e.len() - 1 implies (#[trigger] e.drop_first()[j]).0@ != k by {
            assert(e.drop_first()[j] == e[j + 1]);
        }
        lemma_entries_get_none(e.drop_first(), k);
    }
}

pub proof fn lemma_entries_get_push<V>(e: Seq<(IdentKey, V)>, k: KeyView, x: (IdentKey, V), q: KeyView)
    requires
        !has_key(e, k),
        x.0@ == k,
    ensures
        entries_get(e.push(x), q) == (if q == k { Some(x.1) } else { entries_get(e, q) }),
    decreases e.len(),
{
    reveal_with_fuel(entries_get, 2);
    if e.len() == 0 {
        assert(e.push(x)[0] == x);
        assert(e.push(x).drop_first() =~= Seq::<(IdentKey, V)>::empty());
    } else {
        assert(e.push(x)[0] == e[0]);
        assert(e.push(x).drop_first() =~= e.drop_first().push(x));
        assert(e[0].0@ != k);
        assert(!has_key(e.drop_first(), k)) by {
            if has_key(e.drop_first(), k) {
                let i = choose|i: int| 0 <= i < e.drop_first().len() && (#[trigger] e.drop_first()[i]).0@ == k;
                assert(e[i + 1] == e.drop_first()[i]);
            }
        }
        lemma_entries_get_push(e.drop_first(), k, x, q);
    }
}

/// The symbols of a scope, and its nested scopes.
#[derive(Debug)]
pub struct SymbolTable {
    /// Symbols that are available from the entire scope.
    pub scope_global_table: Vec<(IdentKey, SymbolValue)>,
    /// Symbols that are available from their declaration on (variables), in
    /// the order of declaration.
    pub ordered_symbols: Vec<SymbolValue>,
    /// Nested scopes such as function bodies and struct definitions.
    pub scopes: Vec<(IdentKey, SymbolTable)>,
}

/// Every symbol of the table and of its nested tables is valid.
pub open spec fn table_ok(nodes: Seq<Node>, items: Seq<SymbolValueItem>, aid: u32, t: SymbolTable) -> bool
    decreases t,
{
    &&& forall|i: int|
        0 <= i < t.scope_global_table@.len() ==> symbol_ok(nodes, items, aid, (#[trigger] t.scope_global_table@[i]).1)
    &&& forall|i: int|
        0 <= i < t.ordered_symbols@.len() ==> symbol_ok(nodes, items, aid, #[trigger] t.ordered_symbols@[i])
    &&& forall|i: int|
        0 <= i < t.scopes@.len() ==> table_ok(nodes, items, aid, (#[trigger] t.scopes@[i]).1)
}

/// No key is filed twice among the entries `e`.
pub open spec fn keys_unique<V>(e: Seq<(IdentKey, V)>) -> bool {
    forall|i: int, j: int| 0 <= i < j < e.len() ==> (#[trigger] e[i]).0@ != (#[trigger] e[j]).0@
}

/// No scope of the table `t`, nested ones included, files a symbol or a
/// nested scope twice under one key.
pub open spec fn table_keys_ok(t: SymbolTable) -> bool
    decreases t,
{
    &&& keys_unique(t.scope_global_table@)
    &&& keys_unique(t.scopes@)
    &&& forall|i: int| 0 <= i < t.scopes@.len() ==> table_keys_ok((#[trigger] t.scopes@[i]).1)
}

/// Adding an entry under a key that is not filed keeps the keys unique.
proof fn lemma_keys_unique_push<V>(e: Seq<(IdentKey, V)>, x: (IdentKey, V))
    requires
        keys_unique(e),
        !has_key(e, x.0@),
    ensures
        keys_unique(e.push(x)),
{
    assert forall|i: int, j: int| 0 <= i < j < e.push(x).len() implies (#[trigger] e.push(x)[i]).0@ != (#[trigger] e.push(x)[j]).0@ by {
        if j == e.len() {
            assert(e.push(x)[i] == e[i]);
        } else {
            assert(e.push(x)[i] == e[i] && e.push(x)[j] == e[j]);
        }
    }
}

impl SymbolTable {
    /// An empty table.
    pub fn new() -> (r: SymbolTable)
        ensures
            r.scope_global_table@.len() == 0,
            r.ordered_symbols@.len() == 0,
            r.scopes@.len() == 0,
            table_keys_ok(r),
    {
        SymbolTable { scope_global_table: Vec::new(), ordered_symbols: Vec::new(), scopes: Vec::new() }
    }

    #[verifier::loop_isolation(false)]
    /// Allocates a symbol for `val` and files it: a variable at the end of
    /// the ordered symbols, anything else under its key, unless the key is
    /// taken.
    pub fn insert(&mut self, ctx: &mut IrCtx, val: SymbolValueItem) -> (r: Result<SymbolValue, SymbolCollectionError>)
        requires
            item_ok(old(ctx).nodes@, val),
            arena_items(old(ctx).symbols).len() < usize::MAX,
        ensures
            final(ctx).nodes@ == old(ctx).nodes@,
            final(ctx).types == old(ctx).types,
            arena_items(final(ctx).symbols) == arena_items(old(ctx).symbols).push(val),
            arena_ident(final(ctx).symbols) == arena_ident(old(ctx).symbols),
            final(self).scopes@ == old(self).scopes@,
            spec_is_order_dependent(val) ==> {
                &&& r is Ok
                &&& final(self).ordered_symbols@ == old(self).ordered_symbols@.push(r->Ok_0)
                &&& final(self).scope_global_table@ == old(self).scope_global_table@
            },
            !spec_is_order_dependent(val) ==> final(self).ordered_symbols@ == old(self).ordered_symbols@,
            !spec_is_order_dependent(val) && has_key(old(self).scope_global_table@, item_key(old(ctx).nodes@, val)) ==> {
                &&& r matches Err(SymbolCollectionError::SymbolAlreadyExistsInScope { new, existing })
                &&& new@ == item_key(old(ctx).nodes@, val)
                &&& Some(existing) == entries_get(old(self).scope_global_table@, item_key(old(ctx).nodes@, val))
                &&& final(self).scope_global_table@ == old(self).scope_global_table@
            },
            !spec_is_order_dependent(val) && !has_key(old(self).scope_global_table@, item_key(old(ctx).nodes@, val)) ==> {
                &&& r is Ok
                &&& final(self).scope_global_table@.len() == old(self).scope_global_table@.len() + 1
                &&& final(self).scope_global_table@.last().0@ == item_key(old(ctx).nodes@, val)
                &&& final(self).scope_global_table@.last().1 == r->Ok_0
                &&& final(self).scope_global_table@.drop_last() == old(self).scope_global_table@
            },
            r matches Ok(s) ==> id_index(s.id) == arena_items(old(ctx).symbols).len()
                && id_arena_ident(s.id) == arena_ident(old(ctx).symbols),
            table_keys_ok(*old(self)) ==> table_keys_ok(*final(self)),
    {
        let id = alloc_symbol(&mut ctx.symbols, val);
        let new_sym = SymbolValue { id };
        if val.is_order_dependent() {
            self.ordered_symbols.push(new_sym);
        } else {
            let key = val.key(ctx);
            let n = self.scope_global_table.len();
            let mut i: usize = 0;
            while i < n
                invariant
                    n == self.scope_global_table@.len(),
                    i <= n,
                    forall|j: int| 0 <= j < i ==> (#[trigger] self.scope_global_table@[j]).0@ != key@,
                decreases n - i,
            {
                if self.scope_global_table[i].0.same_as(&key) {
                    proof {
                        lemma_entries_get_at(self.scope_global_table@, key@, i as int);
                    }
                    return Err(SymbolCollectionError::SymbolAlreadyExistsInScope {
                        new: key,
                        existing: self.scope_global_table[i].1,
                    });
                }
                i = i + 1;
            }
            proof {
                lemma_entries_get_none(self.scope_global_table@, key@);
            }
            let ghost prev = self.scope_global_table@;
            let ghost x = (key, new_sym);
            self.scope_global_table.push((key, new_sym));
            assert(self.scope_global_table@.drop_last() =~= prev);
            proof {
                if table_keys_ok(*old(self)) {
                    lemma_keys_unique_push(prev, x);
                    assert(self.scope_global_table@ == prev.push(x));
                }
            }
        }
        Ok(new_sym)
    }

    /// Files `scope` under `ident`, unless a scope is filed under it already;
    /// then the error names the symbol filed under `ident` for the whole
    /// scope (a scope is filed only beside such a symbol; without one the
    /// name is reported as unknown).
    pub fn insert_scope(&mut self, ident: IdentKey, scope: SymbolTable) -> (r: Result<(), SymbolCollectionError>)
        ensures
            final(self).scope_global_table@ == old(self).scope_global_table@,
            final(self).ordered_symbols@ == old(self).ordered_symbols@,
            has_key(old(self).scopes@, ident@) ==> r is Err && final(self).scopes@ == old(self).scopes@,
            has_key(old(self).scopes@, ident@) ==> match entries_get(old(self).scope_global_table@, ident@) {
                Some(v) => r matches Err(SymbolCollectionError::SymbolAlreadyExistsInScope { new, existing })
                    && new@ == ident@ && existing == v,
                None => r matches Err(SymbolCollectionError::ScopeNotFound(k)) && k@ == ident@,
            },
            !has_key(old(self).scopes@, ident@) ==> r is Ok && final(self).scopes@ == old(self).scopes@.push((ident, scope)),
            table_keys_ok(*old(self)) && table_keys_ok(scope) ==> table_keys_ok(*final(self)),
    {
        let n = self.scopes.len();
        let mut i: usize = 0;
        while i < n
            invariant
                n == self.scopes@.len(),
                i <= n,
                forall|j: int| 0 <= j < i ==> (#[trigger] self.scopes@[j]).0@ != ident@,
            decreases n - i,
        {
            if self.scopes[i].0.same_as(&ident) {
                return match self.lookup_global_table(&ident) {
                    Some(existing) => Err(SymbolCollectionError::SymbolAlreadyExistsInScope { new: ident, existing }),
                    None => Err(SymbolCollectionError::ScopeNotFound(ident)),
                };
            }
            i = i + 1;
        }
        proof {
            lemma_entries_get_none(self.scopes@, ident@);
        }
        let ghost prev = self.scopes@;
        let ghost x = (ident, scope);
        self.scopes.push((ident, scope));
        proof {
            if table_keys_ok(*old(self)) && table_keys_ok(x.1) {
                lemma_keys_unique_push(prev, x);
                assert(self.scopes@ == prev.push(x));
                assert forall|i: int| 0 <= i < self.scopes@.len() implies table_keys_ok((#[trigger] self.scopes@[i]).1) by {
                    if i < prev.len() {
                        assert(self.scopes@[i] == prev[i]);
                    }
                }
            }
        }
        Ok(())
    }

    /// Takes out the scope filed under `ident`, if there is one.
    pub fn remove_scope(&mut self, ident: &IdentKey) -> (r: Option<SymbolTable>)
        ensures
            r == entries_get(old(self).scopes@, ident@),
            final(self).scope_global_table@ == old(self).scope_global_table@,
            final(self).ordered_symbols@ == old(self).ordered_symbols@,
            !has_key(old(self).scopes@, ident@) ==> r is None && final(self).scopes@ == old(self).scopes@,
            has_key(old(self).scopes@, ident@) ==> exists|i: int| 0 <= i < old(self).scopes@.len()
                && (#[trigger] old(self).scopes@[i]).0@ == ident@
                && (forall|j: int| 0 <= j < i ==> (#[trigger] old(self).scopes@[j]).0@ != ident@)
                && final(self).scopes@ == old(self).scopes@.remove(i),
            table_keys_ok(*old(self)) ==> table_keys_ok(*final(self)) && !has_key(final(self).scopes@, ident@),
    {
        let n = self.scopes.len();
        let mut i: usize = 0;
        while i < n
            invariant
                n == self.scopes@.len(),
                i <= n,
                *self == *old(self),
                forall|j: int| 0 <= j < i ==> (#[trigger] self.scopes@[j]).0@ != ident@,
            decreases n - i,
        {
            if self.scopes[i].0.same_as(ident) {
                proof {
                    lemma_entries_get_at(self.scopes@, ident@, i as int);
                }
                let ghost prev = self.scopes@;
                let (_, scope) = self.scopes.remove(i);
                proof {
                    if table_keys_ok(*old(self)) {
                        assert forall|a: int, b: int| 0 <= a < b < self.scopes@.len() implies (#[trigger] self.scopes@[a]).0@
                            != (#[trigger] self.scopes@[b]).0@ by {
                            let a2 = if a < i { a } else { a + 1 };
                            let b2 = if b < i { b } else { b + 1 };
                            assert(self.scopes@[a] == prev[a2] && self.scopes@[b] == prev[b2]);
                        }
                        assert forall|a: int| 0 <= a < self.scopes@.len() implies table_keys_ok((#[trigger] self.scopes@[a]).1) by {
                            let a2 = if a < i { a } else { a + 1 };
                            assert(self.scopes@[a] == prev[a2]);
                        }
                        if has_key(self.scopes@, ident@) {
                            let a = choose|a: int| 0 <= a < self.scopes@.len() && (#[trigger] self.scopes@[a]).0@ == ident@;
                            let a2 = if a < i { a } else { a + 1 };
                            assert(self.scopes@[a] == prev[a2]);
                            assert(prev[i as int].0@ == ident@);
                        }
                    }
                }
                return Some(scope);
            }
            i = i + 1;
        }
        proof {
            lemma_entries_get_none(self.scopes@, ident@);
        }
        None
    }

    /// Takes the first of the ordered symbols, if there is one.
    pub fn pop_ordered_symbol(&mut self) -> (r: Option<SymbolValue>)
        ensures
            old(self).ordered_symbols@.len() == 0 ==> r is None && *final(self) == *old(self),
            old(self).ordered_symbols@.len() > 0 ==> r == Some(old(self).ordered_symbols@[0])
                && final(self).ordered_symbols@ == old(self).ordered_symbols@.drop_first()
                && final(self).scope_global_table@ == old(self).scope_global_table@
                && final(self).scopes@ == old(self).scopes@,
    {
        if self.ordered_symbols.len() == 0 {
            None
        } else {
            let s = self.ordered_symbols.remove(0);
            proof {
                assert(self.ordered_symbols@ =~= old(self).ordered_symbols@.drop_first());
            }
            Some(s)
        }
    }

    /// The symbol filed under `ident` in this table's scope-wide symbols.
    pub fn lookup_global_table(&self, ident: &IdentKey) -> (r: Option<SymbolValue>)
        ensures
            r == entries_get(self.scope_global_table@, ident@),
    {
        let n = self.scope_global_table.len();
        let mut i: usize = 0;
        while i < n
            invariant
                n == self.scope_global_table@.len(),
                i <= n,
                forall|j: int| 0 <= j < i ==> (#[trigger] self.scope_global_table@[j]).0@ != ident@,
            decreases n - i,
        {
            if self.scope_global_table[i].0.same_as(ident) {
                proof {
                    lemma_entries_get_at(self.scope_global_table@, ident@, i as int);
                }
                return Some(self.scope_global_table[i].1);
            }
            i = i + 1;
        }
        proof {
            lemma_entries_get_none(self.scope_global_table@, ident@);
        }
        None
    }
}

/// Filing a scope-wide symbol under a free key and looking a key up: the
/// new key gives the new symbol, every other key gives what it gave before.
/// (The table before and after are related as `SymbolTable::insert` says of
/// a successful insertion of an item that is not a variable.)
pub proof fn lemma_insert_then_lookup(
    before: SymbolTable,
    after: SymbolTable,
    nodes: Seq<Node>,
    item: SymbolValueItem,
    s: SymbolValue,
    q: KeyView,
)
    requires
        !has_key(before.scope_global_table@, item_key(nodes, item)),
        after.scope_global_table@.len() == before.scope_global_table@.len() + 1,
        after.scope_global_table@.drop_last() == before.scope_global_table@,
        after.scope_global_table@.last().0@ == item_key(nodes, item),
        after.scope_global_table@.last().1 == s,
    ensures
        entries_get(after.scope_global_table@, q) == (if q == item_key(nodes, item) {
            Some(s)
        } else {
            entries_get(before.scope_global_table@, q)
        }),
{
    let g = before.scope_global_table@;
    let x = after.scope_global_table@.last();
    assert(after.scope_global_table@ =~= g.push(x));
    lemma_entries_get_push(g, item_key(nodes, item), x, q);
}

} // verus!
