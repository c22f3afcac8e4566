use vstd::prelude::*;

use super::types::TypeSignature;

verus! {

/// A reference to a node of the program's node arena.
pub type NodeRef = usize;

/// A stretch of the source text: character positions `start..end`, and the
/// line and column (both counted from 1) at which it starts.
#[derive(Debug, Clone, Copy)]
pub struct Span {
    pub start: usize,
    pub end: usize,
    pub line: usize,
    pub offset: usize,
}

/// A name written in the program.
#[derive(Debug)]
pub struct Ident {
    pub name: Vec<char>,
    pub span: Span,
}

/// The key under which a symbol or a scope is filed: a written name, or, for
/// scopes that have no name (function expressions, struct initializations),
/// the node that opens the scope.
#[derive(Debug)]
pub enum IdentKey {
    Named(Vec<char>),
    Anonymous(NodeRef),
}

/// The mathematical value of an [`IdentKey`].
pub enum KeyView {
    Named(Seq<char>),
    Anonymous(NodeRef),
}

impl View for IdentKey {
    type V = KeyView;

    open spec fn view(&self) -> KeyView {
        match self {
            IdentKey::Named(n) => KeyView::Named(n@),
            IdentKey::Anonymous(r) => KeyView::Anonymous(*r),
        }
    }
}

impl IdentKey {
    /// Whether two keys are the same.
    pub fn same_as(&self, other: &IdentKey) -> (r: bool)
        ensures
            r == (self@ == other@),
    {
        match (self, other) {
            (IdentKey::Named(a), IdentKey::Named(b)) => crate::ir::text::chars_eq(a, b),
            (IdentKey::Anonymous(a), IdentKey::Anonymous(b)) => *a == *b,
            _ => false,
        }
    }

    /// A copy of this key.
    pub fn copy(&self) -> (r: IdentKey)
        ensures
            r@ == self@,
    {
        match self {
            IdentKey::Named(a) => IdentKey::Named(crate::ir::text::copy_chars(a)),
            IdentKey::Anonymous(a) => IdentKey::Anonymous(*a),
        }
    }
}

impl Ident {
    /// A copy of this name.
    pub fn copy(&self) -> (r: Ident)
        ensures
            r.name@ == self.name@,
            r.span == self.span,
    {
        Ident { name: crate::ir::text::copy_chars(&self.name), span: self.span }
    }

    /// The key of this name.
    pub fn key(&self) -> (r: IdentKey)
        ensures
            r@ == KeyView::Named(self.name@),
    {
        IdentKey::Named(crate::ir::text::copy_chars(&self.name))
    }
}

/// Whether a declared value may be assigned to after its declaration.
#[derive(Debug, Clone, Copy, PartialEq, Eq, Structural)]
pub enum Mutability {
    Mutable,
    Immutable,
}

/// One `name: value` pair of a struct initialization.
#[derive(Debug)]
pub struct StructInitValue {
    pub name: Ident,
    pub value: NodeRef,
}

/// Expressions.
#[derive(Debug)]
#[allow(inconsistent_fields)]
pub enum Expr {
    Identifier(Ident),
    StringLiteral(Vec<char>),
    /// A number, kept as the digits (and decimal point) that were written.
    NumberLiteral(Vec<char>),
    BoolLiteral(bool),
    Tuple(Vec<NodeRef>),
    TupleAccess { tuple_expr: NodeRef, attr: usize },
    FunctionCall { func: NodeRef, params: Vec<NodeRef> },
    /// A function expression; the node is a [`Node::Function`].
    Function(NodeRef),
    StructInit { struct_name: Ident, values: Vec<StructInitValue> },
    StructAccess { struct_expr: NodeRef, attr_name: Ident },
    /// A call of a function held by a struct attribute: `obj.attr(params)`.
    MethodCall { struct_expr: NodeRef, attr_name: Ident, params: Vec<NodeRef> },
    EnumInit { enum_name: Vec<char>, enum_value: Ident, items: Vec<NodeRef> },
    /// `object.member(items)` or `.member(items)` before it is known whether
    /// it reads a struct attribute or builds an enum value.
    UnresolvedMemberAccess {
        object: Option<NodeRef>,
        member_name: Ident,
        items: Option<Vec<NodeRef>>,
        type_sig: TypeSignature,
    },
    Assignment { lhs: NodeRef, rhs: NodeRef },
    /// Code in the target language, taken over as it is.
    EscapeBlock { content: Vec<char>, type_sig: TypeSignature },
}

/// Statements.
#[derive(Debug)]
pub enum Stmt {
    VariableDecl(NodeRef),
    FunctionDecl(NodeRef),
    StructDecl(NodeRef),
    EnumDecl(NodeRef),
    Expression(NodeRef),
    Return(NodeRef),
    Comment(Vec<char>),
}

/// `let name: type = value` or `var name: type = value`.
#[derive(Debug)]
pub struct VarDecl {
    pub name: Ident,
    pub mutability: Mutability,
    pub type_sig: TypeSignature,
    pub value: NodeRef,
}

/// A function argument.
#[derive(Debug)]
pub struct FunctionArg {
    pub name: Ident,
    pub type_sig: TypeSignature,
}

/// A function: declared by name, or written as an expression.
#[derive(Debug)]
pub struct Function {
    pub name: Option<Ident>,
    pub args: Vec<FunctionArg>,
    pub return_type: TypeSignature,
    /// The statements of the body.
    pub body: Vec<NodeRef>,
}

/// A struct attribute.
#[derive(Debug)]
pub struct StructAttr {
    pub name: Ident,
    pub mutability: Mutability,
    pub type_sig: TypeSignature,
    pub default_value: Option<NodeRef>,
    /// Where the attribute is written, from its keyword to its end.
    pub span: Span,
}

/// A struct declaration.
#[derive(Debug)]
pub struct Struct {
    pub name: Ident,
    pub attrs: Vec<StructAttr>,
}

/// One value of an enum, with the types of the items that it carries.
#[derive(Debug)]
pub struct EnumValue {
    pub name: Ident,
    pub items: Vec<TypeSignature>,
}

/// An enum declaration.
#[derive(Debug)]
pub struct Enum {
    pub name: Ident,
    pub values: Vec<EnumValue>,
}

/// A node of the program.
#[derive(Debug)]
pub enum Node {
    Expr(Expr, Span),
    Stmt(Stmt, Span),
    VarDecl(VarDecl),
    Function(Function, Span),
    Struct(Struct),
    Enum(Enum),
}

pub open spec fn is_expr(nodes: Seq<Node>, r: int) -> bool {
    0 <= r < nodes.len() && nodes[r] is Expr
}

pub open spec fn is_stmt(nodes: Seq<Node>, r: int) -> bool {
    0 <= r < nodes.len() && nodes[r] is Stmt
}

pub open spec fn is_var(nodes: Seq<Node>, r: int) -> bool {
    0 <= r < nodes.len() && nodes[r] is VarDecl
}

pub open spec fn is_func(nodes: Seq<Node>, r: int) -> bool {
    0 <= r < nodes.len() && nodes[r] is Function
}

pub open spec fn is_struct(nodes: Seq<Node>, r: int) -> bool {
    0 <= r < nodes.len() && nodes[r] is Struct
}

pub open spec fn is_enum(nodes: Seq<Node>, r: int) -> bool {
    0 <= r < nodes.len() && nodes[r] is Enum
}

/// Every reference of `refs` is an expression node before `i`.
pub open spec fn exprs_before(nodes: Seq<Node>, refs: Seq<NodeRef>, i: int) -> bool {
    forall|k: int| 0 <= k < refs.len() ==> #[trigger] refs[k] < i && is_expr(nodes, refs[k] as int)
}

/// Every reference of `refs` is a statement node before `i`.
pub open spec fn stmts_before(nodes: Seq<Node>, refs: Seq<NodeRef>, i: int) -> bool {
    forall|k: int| 0 <= k < refs.len() ==> #[trigger] refs[k] < i && is_stmt(nodes, refs[k] as int)
}

pub open spec fn expr_before(nodes: Seq<Node>, r: NodeRef, i: int) -> bool {
    r < i && is_expr(nodes, r as int)
}

pub open spec fn sig_ok(t: TypeSignature, tl: int) -> bool {
    t.id < tl
}

pub open spec fn init_values_before(nodes: Seq<Node>, vals: Seq<StructInitValue>, i: int) -> bool {
    forall|k: int| 0 <= k < vals.len() ==> expr_before(nodes, (#[trigger] vals[k]).value, i)
}

pub open spec fn args_ok(args: Seq<FunctionArg>, tl: int) -> bool {
    forall|k: int| 0 <= k < args.len() ==> (#[trigger] args[k]).type_sig.id < tl
}

pub open spec fn attrs_ok(nodes: Seq<Node>, attrs: Seq<StructAttr>, i: int, tl: int) -> bool {
    forall|k: int|
        0 <= k < attrs.len() ==> (#[trigger] attrs[k]).type_sig.id < tl && (attrs[k].default_value
            matches Some(d) ==> expr_before(nodes, d, i))
}

pub open spec fn values_ok(values: Seq<EnumValue>, tl: int) -> bool {
    forall|k: int|
        0 <= k < values.len() ==> crate::ir::context::sigs_in((#[trigger] values[k]).items@, tl)
}

/// The references of an expression point to earlier nodes of the right kinds.
pub open spec fn expr_ok(nodes: Seq<Node>, i: int, e: Expr, tl: int) -> bool {
    match e {
        Expr::Tuple(v) => exprs_before(nodes, v@, i),
        Expr::TupleAccess { tuple_expr, .. } => expr_before(nodes, tuple_expr, i),
        Expr::FunctionCall { func, params } => expr_before(nodes, func, i) && exprs_before(
            nodes,
            params@,
            i,
        ),
        Expr::Function(f) => f < i && is_func(nodes, f as int),
        Expr::StructInit { values, .. } => init_values_before(nodes, values@, i),
        Expr::StructAccess { struct_expr, .. } => expr_before(nodes, struct_expr, i),
        Expr::MethodCall { struct_expr, params, .. } => expr_before(nodes, struct_expr, i)
            && exprs_before(nodes, params@, i),
        Expr::EnumInit { items, .. } => exprs_before(nodes, items@, i),
        Expr::UnresolvedMemberAccess { object, items, type_sig, .. } => (object matches Some(o)
            ==> expr_before(nodes, o, i)) && (items matches Some(it) ==> exprs_before(
            nodes,
            it@,
            i,
        )) && sig_ok(type_sig, tl),
        Expr::Assignment { lhs, rhs } => expr_before(nodes, lhs, i) && expr_before(nodes, rhs, i),
        Expr::EscapeBlock { type_sig, .. } => sig_ok(type_sig, tl),
        _ => true,
    }
}

pub open spec fn stmt_ok(nodes: Seq<Node>, i: int, s: Stmt) -> bool {
    match s {
        Stmt::VariableDecl(r) => r < i && is_var(nodes, r as int),
        Stmt::FunctionDecl(r) => r < i && is_func(nodes, r as int),
        Stmt::StructDecl(r) => r < i && is_struct(nodes, r as int),
        Stmt::EnumDecl(r) => r < i && is_enum(nodes, r as int),
        Stmt::Expression(r) => expr_before(nodes, r, i),
        Stmt::Return(r) => expr_before(nodes, r, i),
        Stmt::Comment(_) => true,
    }
}

/// Node `i` only refers to earlier nodes, of the kinds its shape asks for,
/// and to types of a table of length `tl`.
pub open spec fn node_ok(nodes: Seq<Node>, i: int, tl: int) -> bool {
    node_value_ok(nodes, i, nodes[i], tl)
}

/// The node `n`, placed at position `i`, only refers to earlier nodes of the
/// kinds its shape asks for, and to types of a table of length `tl`.
pub open spec fn node_value_ok(nodes: Seq<Node>, i: int, n: Node, tl: int) -> bool {
    match n {
        Node::Expr(e, _) => expr_ok(nodes, i, e, tl),
        Node::Stmt(s, _) => stmt_ok(nodes, i, s),
        Node::VarDecl(v) => expr_before(nodes, v.value, i) && sig_ok(v.type_sig, tl),
        Node::Function(f, _) => args_ok(f.args@, tl) && sig_ok(f.return_type, tl) && stmts_before(
            nodes,
            f.body@,
            i,
        ),
        Node::Struct(s) => attrs_ok(nodes, s.attrs@, i, tl),
        Node::Enum(e) => values_ok(e.values@, tl),
    }
}

/// Every node is well formed.
pub open spec fn nodes_wf(nodes: Seq<Node>, tl: int) -> bool {
    forall|i: int| 0 <= i < nodes.len() ==> #[trigger] node_ok(nodes, i, tl)
}

} // verus!

verus! {

/// Two nodes of the same kind.
pub open spec fn same_kind(a: Node, b: Node) -> bool {
    match (a, b) {
        (Node::Expr(x, _), Node::Expr(y, _)) => (x is StructInit) == (y is StructInit),
        (Node::Stmt(..), Node::Stmt(..)) => true,
        (Node::VarDecl(..), Node::VarDecl(..)) => true,
        (Node::Function(..), Node::Function(..)) => true,
        (Node::Struct(..), Node::Struct(..)) => true,
        (Node::Enum(..), Node::Enum(..)) => true,
        _ => false,
    }
}

/// Node `i` is well formed in `b` as it is in `a` when `b` keeps the kinds
/// of all nodes before `i` and the type table grows.
pub proof fn lemma_node_ok_transfer(a: Seq<Node>, b: Seq<Node>, i: int, tl: int, tl2: int)
    requires
        0 <= i < a.len(),
        i < b.len(),
        b[i] == a[i],
        tl <= tl2,
        forall|r: int| 0 <= r < i ==> same_kind(#[trigger] a[r], b[r]),
        node_ok(a, i, tl),
    ensures
        node_ok(b, i, tl2),
{
    lemma_node_value_transfer(a, b, i, a[i], tl, tl2);
}

/// A node value stays well formed at `i` in `b` when `b` keeps the kinds of
/// all nodes of `a` before `i` and the type table grows.
pub proof fn lemma_node_value_transfer(a: Seq<Node>, b: Seq<Node>, i: int, n: Node, tl: int, tl2: int)
    requires
        0 <= i <= a.len(),
        i <= b.len(),
        tl <= tl2,
        forall|r: int| 0 <= r < i ==> same_kind(#[trigger] a[r], b[r]),
        node_value_ok(a, i, n, tl),
    ensures
        node_value_ok(b, i, n, tl2),
{
    assert forall|r: int| 0 <= r < i implies (is_expr(a, r) == is_expr(b, r) && is_stmt(a, r) == is_stmt(b, r)
        && is_var(a, r) == is_var(b, r) && is_func(a, r) == is_func(b, r) && is_struct(a, r) == is_struct(b, r)
        && is_enum(a, r) == is_enum(b, r)) by {
        assert(same_kind(a[r], b[r]));
    }
    match n {
        Node::Expr(e, _) => {
            match e {
                Expr::Tuple(v) => {
                    assert forall|k: int| 0 <= k < v@.len() implies #[trigger] v@[k] < i && is_expr(b, v@[k] as int) by {
                        assert(v@[k] < i && is_expr(a, v@[k] as int));
                    }
                },
                Expr::FunctionCall { func, params } => {
                    assert forall|k: int| 0 <= k < params@.len() implies #[trigger] params@[k] < i && is_expr(b, params@[k] as int) by {
                        assert(params@[k] < i && is_expr(a, params@[k] as int));
                    }
                },
                Expr::StructInit { values, .. } => {
                    assert forall|k: int| 0 <= k < values@.len() implies expr_before(b, (#[trigger] values@[k]).value, i) by {
                        assert(expr_before(a, values@[k].value, i));
                    }
                },
                Expr::MethodCall { params, .. } => {
                    assert forall|k: int| 0 <= k < params@.len() implies #[trigger] params@[k] < i && is_expr(b, params@[k] as int) by {
                        assert(params@[k] < i && is_expr(a, params@[k] as int));
                    }
                },
                Expr::EnumInit { items, .. } => {
                    assert forall|k: int| 0 <= k < items@.len() implies #[trigger] items@[k] < i && is_expr(b, items@[k] as int) by {
                        assert(items@[k] < i && is_expr(a, items@[k] as int));
                    }
                },
                Expr::UnresolvedMemberAccess { items, .. } => {
                    if let Some(it) = items {
                        assert forall|k: int| 0 <= k < it@.len() implies #[trigger] it@[k] < i && is_expr(b, it@[k] as int) by {
                            assert(it@[k] < i && is_expr(a, it@[k] as int));
                        }
                    }
                },
                _ => {},
            }
        },
        Node::Function(f, _) => {
            assert forall|k: int| 0 <= k < f.body@.len() implies #[trigger] f.body@[k] < i && is_stmt(b, f.body@[k] as int) by {
                assert(f.body@[k] < i && is_stmt(a, f.body@[k] as int));
            }
        },
        Node::Struct(st) => {
            assert forall|k: int| 0 <= k < st.attrs@.len() implies (#[trigger] st.attrs@[k]).type_sig.id < tl2 && (st.attrs@[k].default_value
                matches Some(d) ==> expr_before(b, d, i)) by {
                assert(st.attrs@[k].type_sig.id < tl && (st.attrs@[k].default_value matches Some(d) ==> expr_before(a, d, i)));
            }
        },
        Node::Enum(en) => {
            assert forall|k: int| 0 <= k < en.values@.len() implies crate::ir::context::sigs_in((#[trigger] en.values@[k]).items@, tl2) by {
                assert(crate::ir::context::sigs_in(en.values@[k].items@, tl));
            }
        },
        _ => {},
    }
}

/// Appending a node that is well formed keeps the arena well formed.
pub proof fn lemma_nodes_push(nodes: Seq<Node>, n: Node, tl: int)
    requires
        nodes_wf(nodes, tl),
        node_value_ok(nodes, nodes.len() as int, n, tl),
    ensures
        nodes_wf(nodes.push(n), tl),
{
    let b = nodes.push(n);
    assert forall|r: int| 0 <= r < nodes.len() implies same_kind(#[trigger] nodes[r], b[r]) by {
        assert(b[r] == nodes[r]);
        reveal_same_kind(nodes[r]);
    }
    lemma_node_value_transfer(nodes, b, nodes.len() as int, n, tl, tl);
    assert forall|i: int| 0 <= i < b.len() implies #[trigger] node_ok(b, i, tl) by {
        if i < nodes.len() {
            assert forall|r: int| 0 <= r < i implies same_kind(#[trigger] nodes[r], b[r]) by {
                assert(b[r] == nodes[r]);
                reveal_same_kind(nodes[r]);
            }
            assert(node_ok(nodes, i, tl));
            lemma_node_ok_transfer(nodes, b, i, tl, tl);
        }
    }
}

/// Every node is of its own kind.
pub proof fn reveal_same_kind(a: Node)
    ensures
        same_kind(a, a),
{
}

/// A growing type table keeps the arena well formed.
pub proof fn lemma_nodes_types_grow(nodes: Seq<Node>, tl: int, tl2: int)
    requires
        nodes_wf(nodes, tl),
        tl <= tl2,
    ensures
        nodes_wf(nodes, tl2),
{
    assert forall|i: int| 0 <= i < nodes.len() implies #[trigger] node_ok(nodes, i, tl2) by {
        assert forall|r: int| 0 <= r < i implies same_kind(#[trigger] nodes[r], nodes[r]) by {
            reveal_same_kind(nodes[r]);
        }
        assert(node_ok(nodes, i, tl));
        lemma_node_ok_transfer(nodes, nodes, i, tl, tl2);
    }
}

/// Replacing a node by a well formed node of the same kind keeps the arena
/// well formed.
pub proof fn lemma_nodes_update(nodes: Seq<Node>, j: int, n: Node, tl: int)
    requires
        nodes_wf(nodes, tl),
        0 <= j < nodes.len(),
        same_kind(nodes[j], n),
        node_ok(nodes.update(j, n), j, tl),
    ensures
        nodes_wf(nodes.update(j, n), tl),
{
    let b = nodes.update(j, n);
    assert forall|i: int| 0 <= i < b.len() implies #[trigger] node_ok(b, i, tl) by {
        if i != j {
            assert forall|r: int| 0 <= r < i implies same_kind(#[trigger] nodes[r], b[r]) by {
                if r == j {
                } else {
                    assert(b[r] == nodes[r]);
                    reveal_same_kind(nodes[r]);
                }
            }
            assert(node_ok(nodes, i, tl));
            lemma_node_ok_transfer(nodes, b, i, tl, tl);
        }
    }
}

} // verus!
