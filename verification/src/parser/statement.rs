use vstd::prelude::*;

use crate::ir::context::{sigs_in, IrCtx};
use crate::ir::node::{
    is_expr, is_func, is_stmt, Enum, EnumValue, Function, FunctionArg, Ident, Mutability, Node, NodeRef, Span,
    Stmt, Struct, StructAttr, VarDecl,
};
use crate::ir::typed::{deep, DeepType};
use crate::ir::types::{TypeSignature, TypeValue};

use super::type_signature::{sig_valid, spec_type_sig};
use super::grammar::{
    stmt_choice,
    g_annotation, g_attr, g_attrs, g_attrs_rest, g_block, g_block_spans, g_comment, g_enum, g_enum_value,
    g_enum_values, g_enum_values_rest, g_farg, g_fargs, g_fargs_rest, g_func_decl, g_func_decl_body, g_func_expr,
    g_func_expr_body, g_return, g_separator, g_stmt, g_stmt_spans, g_stmt_spans_rest, g_stmts, g_stmts_rest,
    g_struct, g_types1, g_types_rest, g_var_decl, reads, g_attr_starts, g_attr_rest_starts, g_attr_default,
    g_value_starts, g_value_rest_starts, g_farg_starts, g_farg_rest_starts, g_type_starts, g_type_rest_starts,
};
use super::identifier::spec_identifier;
use super::{is_space, parse_post, parse_pre, spec_spaced_char, ws_end, spec_spaced_tag, stmts_valid, ParserContext, ParserError, ParserErrorKind, Res};

verus! {

/// The argument types are interned in the context.
pub open spec fn args_valid(ctx: &IrCtx, args: Seq<FunctionArg>) -> bool {
    forall|k: int| 0 <= k < args.len() ==> sig_valid(ctx, (#[trigger] args[k]).type_sig)
}

/// The mutability keyword at `i`: `let` for an immutable binding, `var`
/// for a mutable one, and the position after it and its whitespace.
pub open spec fn spec_mutability(s: Seq<char>, i: int) -> Option<(int, Mutability)> {
    match spec_spaced_tag(s, i, seq!['l', 'e', 't']) {
        Some(j) => Some((j, Mutability::Immutable)),
        None => match spec_spaced_tag(s, i, seq!['v', 'a', 'r']) {
            Some(j) => Some((j, Mutability::Mutable)),
            None => None,
        },
    }
}

/// `name`, declared with mutability `m`, is what the keyword at `i` and the
/// identifier after it write.
pub open spec fn declared(s: Seq<char>, i: int, m: Mutability, name: Ident) -> bool {
    &&& spec_mutability(s, i) matches Some((a, m2))
    &&& m2 == m
    &&& spec_identifier(s, a) matches Some((x, y, _))
    &&& name.name@ == s.subrange(x, y)
}

/// The attribute `a` is the one written at `i`: its mutability and name,
/// whether it has a default value, and its span.
pub open spec fn attr_read(s: Seq<char>, i: int, a: StructAttr) -> bool {
    &&& declared(s, i, a.mutability, a.name)
    &&& (a.default_value is Some <==> g_attr_default(s, i))
    &&& a.span.start == ws_end(s, i)
    &&& super::grammar::g_attr(s, i) matches Some(e)
    &&& a.span.end == trim_back(s, ws_end(s, i), e)
}

/// The end of what stands from `i` to `j` once the whitespace at its end is
/// left out.
pub open spec fn trim_back(s: Seq<char>, i: int, j: int) -> int
    decreases j - i,
{
    if j > i && 0 < j <= s.len() && is_space(s[j - 1]) {
        trim_back(s, i, j - 1)
    } else {
        j
    }
}

/// Where the type annotation of a declaration written at `i` may stand:
/// after its keyword and its name.
pub open spec fn decl_name_end(s: Seq<char>, i: int) -> Option<int> {
    match spec_mutability(s, i) {
        Some((a, _)) => match spec_identifier(s, a) {
            Some((_, _, b)) => Some(b),
            None => None,
        },
        None => None,
    }
}

/// Where the value of a declaration written at `i` starts: after its name,
/// its type annotation if it has one, and `=`.
pub open spec fn decl_value_start(s: Seq<char>, i: int) -> Option<int> {
    match decl_name_end(s, i) {
        Some(b) => spec_spaced_char(s, g_annotation(s, b, ':'), '='),
        None => None,
    }
}

/// `t` is the type of the declaration written at `i`: the type written
/// after `:`, or a type variable where none is written.
pub open spec fn decl_type_read(ctx: &IrCtx, s: Seq<char>, i: int, t: TypeSignature) -> bool {
    &&& decl_name_end(s, i) matches Some(b)
    &&& type_read(ctx, spec_annotation(s, b, ':'), t)
}

/// The type and default value of the attribute `a`, written at `i`, are
/// those written there: the default value is the expression that follows
/// `=`, up to the attribute's end.
pub open spec fn attr_parts_read(ctx: &IrCtx, s: Seq<char>, i: int, a: StructAttr) -> bool {
    &&& decl_type_read(ctx, s, i, a.type_sig)
    &&& a.default_value matches Some(d) ==> is_expr(ctx.nodes@, d as int)
        && decl_value_start(s, i) == Some(ctx.nodes@[d as int]->Expr_1.start as int)
        && super::grammar::g_attr(s, i) == Some(ctx.nodes@[d as int]->Expr_1.end as int)
        && super::expression::expr_read_at(s, ctx.nodes@, d)
}

/// The types and default values of the attributes `attrs`, written at
/// `starts`, are those written there.
pub open spec fn attrs_parts_read(ctx: &IrCtx, s: Seq<char>, starts: Seq<int>, attrs: Seq<StructAttr>) -> bool {
    forall|q: int| 0 <= q < attrs.len() && q < starts.len() ==> attr_parts_read(ctx, s, #[trigger] starts[q], attrs[q])
}

/// What was read of a declaration's type and value stays so as the program
/// grows.
proof fn lemma_attr_parts_extends(new: &IrCtx, old: &IrCtx, s: Seq<char>, i: int, a: StructAttr)
    requires
        IrCtx::extends(new, old),
        attr_parts_read(old, s, i, a),
    ensures
        attr_parts_read(new, s, i, a),
{
    crate::ir::typed::lemma_deep_extends(new.types.types@, old.types.types@, a.type_sig);
    assert(new.types.types@[a.type_sig.id as int]@ == old.types.types@[a.type_sig.id as int]@);
    if let Some(d) = a.default_value {
        assert(new.nodes@[d as int] == old.nodes@[d as int]);
        super::expression::lemma_expr_read_extends(s, new.nodes@, old.nodes@, d);
    }
}

/// The attributes `attrs` are those written at `starts`, one each, in order.
pub open spec fn attrs_read(s: Seq<char>, starts: Seq<int>, attrs: Seq<StructAttr>) -> bool {
    attrs.len() == starts.len() && forall|q: int| 0 <= q < attrs.len() ==> attr_read(s, #[trigger] starts[q], attrs[q])
}

/// The type `t` is the one written, `w`, or a type variable where none is
/// written.
pub open spec fn type_read(ctx: &IrCtx, w: Option<(int, DeepType)>, t: TypeSignature) -> bool {
    &&& t.id < ctx.types.types@.len()
    &&& match w {
        Some((_, dt)) => deep(ctx.types.types@, t) == dt,
        None => ctx.types.value(t) is TypeVariable,
    }
}

/// The function argument `a` is the one written at `i`: its name and type.
pub open spec fn arg_read(ctx: &IrCtx, s: Seq<char>, i: int, a: FunctionArg) -> bool {
    &&& spec_identifier(s, i) matches Some((x, y, e))
    &&& a.name.name@ == s.subrange(x, y)
    &&& type_read(ctx, spec_annotation(s, e, ':'), a.type_sig)
}

/// The arguments `args` are those written at `starts`, one each, in order.
pub open spec fn args_read(ctx: &IrCtx, s: Seq<char>, starts: Seq<int>, args: Seq<FunctionArg>) -> bool {
    args.len() == starts.len() && forall|q: int| 0 <= q < args.len() ==> arg_read(ctx, s, #[trigger] starts[q], args[q])
}

/// What was read of a type stays so as the program grows.
proof fn lemma_type_read_extends(new: &IrCtx, old: &IrCtx, w: Option<(int, DeepType)>, t: TypeSignature)
    requires
        IrCtx::extends(new, old),
        type_read(old, w, t),
    ensures
        type_read(new, w, t),
{
    crate::ir::typed::lemma_deep_extends(new.types.types@, old.types.types@, t);
    assert(new.types.types@[t.id as int]@ == old.types.types@[t.id as int]@);
}

/// What was read of arguments stays so as the program grows.
proof fn lemma_args_read_extends(new: &IrCtx, old: &IrCtx, s: Seq<char>, starts: Seq<int>, args: Seq<FunctionArg>)
    requires
        IrCtx::extends(new, old),
        args_read(old, s, starts, args),
    ensures
        args_read(new, s, starts, args),
{
    assert forall|q: int| 0 <= q < args.len() implies arg_read(new, s, #[trigger] starts[q], args[q]) by {
        if let Some((_, _, e)) = spec_identifier(s, starts[q]) {
            lemma_type_read_extends(new, old, spec_annotation(s, e, ':'), args[q].type_sig);
        }
    }
}

/// The type `t` is the one written at `i`.
pub open spec fn type_at(ctx: &IrCtx, s: Seq<char>, i: int, t: TypeSignature) -> bool {
    &&& t.id < ctx.types.types@.len()
    &&& match spec_type_sig(s, i) {
        Some((_, dt)) => deep(ctx.types.types@, t) == dt,
        None => false,
    }
}

/// The types `ts` are those written at `starts`, one each, in order.
pub open spec fn types_read(ctx: &IrCtx, s: Seq<char>, starts: Seq<int>, ts: Seq<TypeSignature>) -> bool {
    &&& ts.len() == starts.len()
    &&& forall|q: int| 0 <= q < ts.len() ==> type_at(ctx, s, starts[q], #[trigger] ts[q])
}

/// What was read of types stays so as the program grows.
proof fn lemma_types_read_extends(new: &IrCtx, old: &IrCtx, s: Seq<char>, starts: Seq<int>, ts: Seq<TypeSignature>)
    requires
        IrCtx::extends(new, old),
        types_read(old, s, starts, ts),
    ensures
        types_read(new, s, starts, ts),
{
    assert forall|q: int| 0 <= q < ts.len() implies type_at(new, s, starts[q], #[trigger] ts[q]) by {
        crate::ir::typed::lemma_deep_extends(new.types.types@, old.types.types@, ts[q]);
    }
}

/// The items of the enum value `v`, written at `i`, are the types written
/// in brackets after its name, or none where no such list stands there.
pub open spec fn value_items_read(ctx: &IrCtx, s: Seq<char>, i: int, v: EnumValue) -> bool {
    &&& spec_identifier(s, i) matches Some((_, _, a))
    &&& match super::grammar::g_types1(s, a) {
        Some(_) => types_read(ctx, s, g_type_starts(s, a), v.items@),
        None => v.items@.len() == 0,
    }
}

/// The items of the enum values `values`, written at `starts`, are those
/// written there.
pub open spec fn values_items_read(ctx: &IrCtx, s: Seq<char>, starts: Seq<int>, values: Seq<EnumValue>) -> bool {
    forall|q: int| 0 <= q < values.len() && q < starts.len() ==> value_items_read(ctx, s, #[trigger] starts[q], values[q])
}

/// What was read of the items of enum values stays so as the program grows.
proof fn lemma_values_items_extends(new: &IrCtx, old: &IrCtx, s: Seq<char>, starts: Seq<int>, values: Seq<EnumValue>)
    requires
        IrCtx::extends(new, old),
        values_items_read(old, s, starts, values),
    ensures
        values_items_read(new, s, starts, values),
{
    assert forall|q: int| 0 <= q < values.len() && q < starts.len() implies value_items_read(new, s, #[trigger] starts[q], values[q]) by {
        if let Some((_, _, a)) = spec_identifier(s, starts[q]) {
            if super::grammar::g_types1(s, a) is Some {
                lemma_types_read_extends(new, old, s, g_type_starts(s, a), values[q].items@);
            }
        }
    }
}

/// The enum value `v` is the one written at `i`: its name.
pub open spec fn enum_value_read(s: Seq<char>, i: int, v: EnumValue) -> bool {
    spec_identifier(s, i) matches Some((x, y, _)) && v.name.name@ == s.subrange(x, y)
}

/// The enum values `values` are those written at `starts`, one each, in
/// order.
pub open spec fn values_read(s: Seq<char>, starts: Seq<int>, values: Seq<EnumValue>) -> bool {
    values.len() == starts.len() && forall|q: int| 0 <= q < values.len() ==> enum_value_read(s, #[trigger] starts[q], values[q])
}

/// The keyword `kw` at the first position at or after `i` that holds no
/// whitespace, at least one whitespace character, then an identifier: where
/// the identifier stands, as `spec_identifier` gives it.
pub open spec fn keyword_then_name(s: Seq<char>, i: int, kw: Seq<char>) -> Option<(int, int, int)> {
    let a = ws_end(s, i);
    let b = a + kw.len();
    if 0 <= a && b < s.len() && s.subrange(a, b) == kw && is_space(s[b]) {
        spec_identifier(s, ws_end(s, b))
    } else {
        None
    }
}

/// `name` is the identifier that `kw`, at `i`, is followed by.
pub open spec fn named_after(s: Seq<char>, i: int, kw: Seq<char>, name: Ident) -> bool {
    &&& keyword_then_name(s, i, kw) matches Some((x, y, _))
    &&& name.name@ == s.subrange(x, y)
}

/// The end of the line that goes on at `i`: the first newline or carriage
/// return at or after it, or the end of the source.
pub open spec fn line_end(s: Seq<char>, i: int) -> int
    decreases s.len() - i,
{
    if i < 0 || i >= s.len() || s[i] == '\n' || s[i] == '\r' {
        i
    } else {
        line_end(s, i + 1)
    }
}

/// The value at node `x` of a declaration written from `i` to `j` is the
/// expression that follows its `=`, up to the declaration's end.
pub open spec fn value_read(s: Seq<char>, i: int, j: int, nodes: Seq<Node>, x: NodeRef) -> bool {
    &&& nodes[x as int] is Expr
    &&& decl_value_start(s, i) == Some(nodes[x as int]->Expr_1.start as int)
    &&& nodes[x as int]->Expr_1.end == j
    &&& super::expression::expr_read_at(s, nodes, x)
}

/// Where the attributes of a struct declaration written at `i` start: after
/// `struct`, its name and `{`.
pub open spec fn struct_body_at(s: Seq<char>, i: int) -> Option<int> {
    match super::grammar::g_named(s, i, seq!['s', 't', 'r', 'u', 'c', 't']) {
        Some(b) => super::grammar::g_char(s, b, '{'),
        None => None,
    }
}

/// Where the values of an enum declaration written at `i` start: after
/// `enum`, its name and `{`.
pub open spec fn enum_body_at(s: Seq<char>, i: int) -> Option<int> {
    match spec_spaced_tag(s, i, seq!['e', 'n', 'u', 'm']) {
        Some(a) => match spec_identifier(s, a) {
            Some((_, _, b)) => spec_spaced_char(s, b, '{'),
            None => None,
        },
        None => None,
    }
}

/// Where the arguments and the return type of a function declaration
/// written at `i` stand: after its name, and after its arguments.
pub open spec fn func_sig_at(s: Seq<char>, i: int) -> Option<(int, int)> {
    match super::grammar::g_named(s, i, seq!['f', 'u', 'n', 'c']) {
        Some(b) => match super::grammar::g_fargs(s, b) {
            Some(c) => Some((b, c)),
            None => None,
        },
        None => None,
    }
}

/// The arguments and the return type of the function at node `f`, declared
/// at `i`, are those written there.
pub open spec fn func_typed(ctx: &IrCtx, s: Seq<char>, i: int, f: NodeRef) -> bool {
    let fun = ctx.nodes@[f as int]->Function_0;
    &&& func_sig_at(s, i) matches Some((b, c))
    &&& args_read(ctx, s, g_farg_starts(s, b), fun.args@)
    &&& type_read(ctx, spec_return_annotation(s, c), fun.return_type)
}

/// The types that the statement at node `r` declares are those written in
/// it: the type of a variable, and the types and default values of the
/// attributes of a struct.
pub open spec fn stmt_typed_at(ctx: &IrCtx, s: Seq<char>, r: NodeRef) -> bool {
    let nodes = ctx.nodes@;
    let i = nodes[r as int]->Stmt_1.start as int;
    match nodes[r as int]->Stmt_0 {
        Stmt::VariableDecl(v) => decl_type_read(ctx, s, i, nodes[v as int]->VarDecl_0.type_sig),
        Stmt::StructDecl(d) => struct_body_at(s, i) matches Some(k)
            && attrs_parts_read(ctx, s, g_attr_starts(s, k), nodes[d as int]->Struct_0.attrs@),
        Stmt::FunctionDecl(f) => func_typed(ctx, s, i, f),
        Stmt::EnumDecl(d) => enum_body_at(s, i) matches Some(k)
            && values_items_read(ctx, s, g_value_starts(s, k), nodes[d as int]->Enum_0.values@),
        _ => true,
    }
}

/// Each statement of `v` declares the types written in it.
pub open spec fn stmts_typed(ctx: &IrCtx, s: Seq<char>, v: Seq<NodeRef>) -> bool {
    forall|k: int| 0 <= k < v.len() ==> stmt_typed_at(ctx, s, #[trigger] v[k])
}

/// What a function declares of types stays so as the program grows.
proof fn lemma_func_typed_extends(new: &IrCtx, old: &IrCtx, s: Seq<char>, i: int, f: NodeRef)
    requires
        IrCtx::extends(new, old),
        0 <= f < old.nodes@.len(),
        func_typed(old, s, i, f),
    ensures
        func_typed(new, s, i, f),
{
    assert(new.nodes@[f as int] == old.nodes@[f as int]);
    let fun = old.nodes@[f as int]->Function_0;
    let (b, c) = func_sig_at(s, i)->0;
    lemma_args_read_extends(new, old, s, g_farg_starts(s, b), fun.args@);
    lemma_type_read_extends(new, old, spec_return_annotation(s, c), fun.return_type);
}

/// What a statement declares of types stays so as the program grows.
proof fn lemma_stmt_typed_extends(s: Seq<char>, new: &IrCtx, old: &IrCtx, r: NodeRef)
    requires
        IrCtx::extends(new, old),
        old.wf(),
        is_stmt(old.nodes@, r as int),
        stmt_typed_at(old, s, r),
    ensures
        stmt_typed_at(new, s, r),
{
    assert(new.nodes@[r as int] == old.nodes@[r as int]);
    assert(crate::ir::node::node_ok(old.nodes@, r as int, old.types.types@.len() as int));
    let i = old.nodes@[r as int]->Stmt_1.start as int;
    match old.nodes@[r as int]->Stmt_0 {
        Stmt::VariableDecl(v) => {
            assert(new.nodes@[v as int] == old.nodes@[v as int]);
            let t = old.nodes@[v as int]->VarDecl_0.type_sig;
            crate::ir::typed::lemma_deep_extends(new.types.types@, old.types.types@, t);
            assert(new.types.types@[t.id as int]@ == old.types.types@[t.id as int]@);
        },
        Stmt::FunctionDecl(f) => {
            assert(new.nodes@[f as int] == old.nodes@[f as int]);
            lemma_func_typed_extends(new, old, s, i, f);
        },
        Stmt::EnumDecl(d) => {
            assert(new.nodes@[d as int] == old.nodes@[d as int]);
            let k = enum_body_at(s, i)->0;
            lemma_values_items_extends(new, old, s, g_value_starts(s, k), old.nodes@[d as int]->Enum_0.values@);
        },
        Stmt::StructDecl(d) => {
            assert(new.nodes@[d as int] == old.nodes@[d as int]);
            let k = struct_body_at(s, i)->0;
            let starts = g_attr_starts(s, k);
            let attrs = old.nodes@[d as int]->Struct_0.attrs@;
            assert forall|q: int| 0 <= q < attrs.len() && q < starts.len() implies attr_parts_read(new, s,
                #[trigger] starts[q], attrs[q]) by {
                lemma_attr_parts_extends(new, old, s, starts[q], attrs[q]);
            }
        },
        _ => {},
    }
}

/// What a statement read from `i` to `j` is, as far as its first words
/// tell: a comment is the rest of a line after `//` (and a line that starts
/// with `//` is a comment), a declaration carries the name that follows its
/// keyword, a return starts with `return`.
pub open spec fn stmt_read(s: Seq<char>, i: int, j: int, nodes: Seq<Node>, st: Stmt) -> bool {
    let a = ws_end(s, i);
    &&& (a + 2 <= s.len() && s.subrange(a, a + 2) == seq!['/', '/']) ==> st is Comment
    &&& match st {
        Stmt::Comment(c) => c@ == s.subrange(a + 2, j) && j == line_end(s, a + 2),
        Stmt::VariableDecl(v) => nodes[v as int] is VarDecl && declared(s, i, nodes[v as int]->VarDecl_0.mutability,
            nodes[v as int]->VarDecl_0.name) && value_read(s, i, j, nodes, nodes[v as int]->VarDecl_0.value),
        Stmt::FunctionDecl(f) => nodes[f as int] is Function && (nodes[f as int]->Function_0.name matches Some(n)
            && named_after(s, i, seq!['f', 'u', 'n', 'c'], n)) && stmts_at(nodes, nodes[f as int]->Function_0.body@,
            super::grammar::g_func_decl_body(s, i)),
        Stmt::StructDecl(d) => nodes[d as int] is Struct && named_after(s, i, seq!['s', 't', 'r', 'u', 'c', 't'],
            nodes[d as int]->Struct_0.name) && (struct_body_at(s, i) matches Some(k)
            && attrs_read(s, g_attr_starts(s, k), nodes[d as int]->Struct_0.attrs@)),
        Stmt::EnumDecl(d) => nodes[d as int] is Enum && (spec_spaced_tag(s, i, seq!['e', 'n', 'u', 'm']) matches Some(b)
            && spec_identifier(s, b) matches Some((x, y, _)) && nodes[d as int]->Enum_0.name.name@ == s.subrange(x, y))
            && (enum_body_at(s, i) matches Some(k) && values_read(s, g_value_starts(s, k), nodes[d as int]->Enum_0.values@)),
        Stmt::Return(e) => nodes[e as int] is Expr && spec_spaced_tag(s, i, seq!['r', 'e', 't', 'u', 'r', 'n']) == Some(
            nodes[e as int]->Expr_1.start as int) && nodes[e as int]->Expr_1.end == j
            && super::expression::expr_read_at(s, nodes, e),
        Stmt::Expression(e) => nodes[e as int] is Expr && nodes[e as int]->Expr_1.start == i && nodes[e as int]->Expr_1.end == j
            && super::expression::expr_read_at(s, nodes, e),
    }
}

/// The statement at node `r` is what the language reads over its span: the
/// alternative that the language picks there, read as `stmt_read` says.
pub open spec fn stmt_read_at(s: Seq<char>, nodes: Seq<Node>, r: NodeRef) -> bool {
    let sp = nodes[r as int]->Stmt_1;
    &&& stmt_read(s, sp.start as int, sp.end as int, nodes, nodes[r as int]->Stmt_0)
    &&& stmt_choice(s, sp.start as int, nodes[r as int]->Stmt_0)
}

/// Each statement of `v` is what the language reads over its span.
pub open spec fn stmts_read(s: Seq<char>, nodes: Seq<Node>, v: Seq<NodeRef>) -> bool {
    forall|k: int| 0 <= k < v.len() ==> stmt_read_at(s, nodes, #[trigger] v[k])
}

/// What a statement was read as stays so when nodes are added.
proof fn lemma_stmt_read_extends(s: Seq<char>, new: Seq<Node>, old: Seq<Node>, tl: int, r: NodeRef)
    requires
        old.len() <= new.len(),
        forall|i: int| 0 <= i < old.len() ==> #[trigger] new[i] == old[i],
        crate::ir::node::nodes_wf(old, tl),
        is_stmt(old, r as int),
        stmt_read_at(s, old, r),
    ensures
        stmt_read_at(s, new, r),
{
    assert(new[r as int] == old[r as int]);
    assert(crate::ir::node::node_ok(old, r as int, tl));
    match old[r as int]->Stmt_0 {
        Stmt::VariableDecl(v) => {
            assert(new[v as int] == old[v as int]);
            assert(crate::ir::node::node_ok(old, v as int, tl));
            let x = old[v as int]->VarDecl_0.value;
            assert(new[x as int] == old[x as int]);
            super::expression::lemma_expr_read_extends(s, new, old, x);
        },
        Stmt::FunctionDecl(v) => {
            assert(new[v as int] == old[v as int]);
            assert(crate::ir::node::node_ok(old, v as int, tl));
            let body = old[v as int]->Function_0.body@;
            assert forall|k: int| 0 <= k < body.len() implies is_stmt(old, #[trigger] body[k] as int) by {}
            lemma_spans_extend(new, old, body);
        },
        Stmt::StructDecl(v) => { assert(new[v as int] == old[v as int]); },
        Stmt::EnumDecl(v) => { assert(new[v as int] == old[v as int]); },
        Stmt::Return(v) => {
            assert(new[v as int] == old[v as int]);
            super::expression::lemma_expr_read_extends(s, new, old, v);
        },
        Stmt::Expression(v) => {
            assert(new[v as int] == old[v as int]);
            super::expression::lemma_expr_read_extends(s, new, old, v);
        },
        Stmt::Comment(_) => {},
    }
}

/// The statements `v` were read one after the other from `i` up to `j`:
/// the first starts at `i`, and each ends before the next starts.
pub open spec fn stmts_in_order(nodes: Seq<Node>, v: Seq<NodeRef>, i: int, j: int) -> bool {
    &&& v.len() > 0 ==> nodes[v[0] as int]->Stmt_1.start == i
    &&& forall|k: int| 0 <= k < v.len() ==> i <= (#[trigger] nodes[v[k] as int])->Stmt_1.start
        < nodes[v[k] as int]->Stmt_1.end <= j
    &&& forall|k: int| 0 < k < v.len() ==> nodes[v[k - 1] as int]->Stmt_1.end < (#[trigger] nodes[v[k] as int])->Stmt_1.start
}

/// The type written after the separator `sep` at `i`, if one is.
pub open spec fn spec_annotation(s: Seq<char>, i: int, sep: char) -> Option<(int, DeepType)> {
    match spec_spaced_char(s, i, sep) {
        Some(a) => spec_type_sig(s, a),
        None => None,
    }
}

/// The type written after `->` at `i`, if one is.
pub open spec fn spec_return_annotation(s: Seq<char>, i: int) -> Option<(int, DeepType)> {
    match spec_spaced_tag(s, i, seq!['-', '>']) {
        Some(a) => spec_type_sig(s, a),
        None => None,
    }
}

/// `t`, read from `i` to `j`, is the written type `w` where there is one,
/// and a fresh type variable, reading nothing, where there is none.
pub open spec fn annotated(new: &IrCtx, old: &IrCtx, w: Option<(int, DeepType)>, i: int, j: int, t: TypeSignature) -> bool {
    match w {
        Some((b, dt)) => j == b && deep(new.types.types@, t) == dt,
        None => j == i && t.id >= old.types.types@.len() && new.types.value(t) == TypeValue::TypeVariable(t.id),
    }
}

/// The spans of the statements `v`.
pub open spec fn spans_of(nodes: Seq<Node>, v: Seq<NodeRef>) -> Seq<(int, int)> {
    Seq::new(v.len(), |k: int| (nodes[v[k] as int]->Stmt_1.start as int, nodes[v[k] as int]->Stmt_1.end as int))
}

/// Statement spans stay when nodes are added.
proof fn lemma_spans_extend(new: Seq<Node>, old: Seq<Node>, v: Seq<NodeRef>)
    requires
        old.len() <= new.len(),
        forall|i: int| 0 <= i < old.len() ==> #[trigger] new[i] == old[i],
        stmts_valid(old, v),
    ensures
        spans_of(new, v) == spans_of(old, v),
{
    assert forall|k: int| 0 <= k < v.len() implies #[trigger] new[v[k] as int] == old[v[k] as int] by {
        assert(is_stmt(old, v[k] as int));
    }
    assert(spans_of(new, v) =~= spans_of(old, v));
}

/// The statements `v` are those that the language reads, with the spans
/// `spans`.
pub open spec fn stmts_at(nodes: Seq<Node>, v: Seq<NodeRef>, spans: Seq<(int, int)>) -> bool {
    spans_of(nodes, v) == spans
}

impl ParserContext {
    /// The type after `:`, or a fresh type variable when none is written.
    fn opt_type_annotation(&self, ctx: &mut IrCtx, i: usize, sep: char) -> (r: Res<TypeSignature>)
        requires
            parse_pre(self, old(ctx), i),
        ensures
            parse_post(final(ctx), old(ctx)),
            r matches Ok((j, t)) ==> i <= j <= self.source@.len() && sig_valid(final(ctx), t)
                && annotated(final(ctx), old(ctx), spec_annotation(self.source@, i as int, sep), i as int, j as int, t),
            r is Ok,
    {
        match self.spaced_char(i, sep) {
            Ok((a, _)) => {
                match self.type_signature(ctx, a) {
                    Ok((b, (t, _))) => {
                        return Ok((b, t));
                    },
                    Err(_) => {},
                }
            },
            Err(_) => {},
        }
        Ok((i, ctx.new_type_var()))
    }

    /// The return type after `->`, or a fresh type variable.
    fn return_signature(&self, ctx: &mut IrCtx, i: usize) -> (r: Res<TypeSignature>)
        requires
            parse_pre(self, old(ctx), i),
        ensures
            parse_post(final(ctx), old(ctx)),
            r matches Ok((j, t)) ==> i <= j <= self.source@.len() && sig_valid(final(ctx), t)
                && annotated(final(ctx), old(ctx), spec_return_annotation(self.source@, i as int), i as int, j as int, t),
            r is Ok,
    {
        match self.spaced_tag(i, &vec!['-', '>']) {
            Ok((a, _)) => {
                match self.type_signature(ctx, a) {
                    Ok((b, (t, _))) => {
                        return Ok((b, t));
                    },
                    Err(_) => {},
                }
            },
            Err(_) => {},
        }
        Ok((i, ctx.new_type_var()))
    }

    /// `NAME [: TYPE]`.
    fn function_arg(&self, ctx: &mut IrCtx, i: usize) -> (r: Res<FunctionArg>)
        requires
            parse_pre(self, old(ctx), i),
        ensures
            parse_post(final(ctx), old(ctx)),
            r matches Ok((j, a)) ==> {
                &&& i < j <= self.source@.len()
                &&& sig_valid(final(ctx), a.type_sig)
                &&& spec_identifier(self.source@, i as int) matches Some((x, y, e))
                &&& a.name.name@ == self.source@.subrange(x, y)
                &&& annotated(final(ctx), old(ctx), spec_annotation(self.source@, e, ':'), e, j as int, a.type_sig)
                &&& arg_read(final(ctx), self.source@, i as int, a)
            },
            reads(final(ctx), r, g_farg(self.source@, i as int)),
    {
        let (a, name) = self.identifier(i)?;
        let (b, type_sig) = self.opt_type_annotation(ctx, a, ':')?;
        Ok((b, FunctionArg { name, type_sig }))
    }

    /// `( ARG, ... )`.
    fn function_args(&self, ctx: &mut IrCtx, i: usize) -> (r: Res<Vec<FunctionArg>>)
        requires
            parse_pre(self, old(ctx), i),
        ensures
            parse_post(final(ctx), old(ctx)),
            r matches Ok((j, v)) ==> i < j <= self.source@.len() && args_valid(final(ctx), v@),
            r matches Ok((j, v)) ==> args_read(final(ctx), self.source@, g_farg_starts(self.source@, i as int), v@),
            reads(final(ctx), r, g_fargs(self.source@, i as int)),
    {
        let (mut j, _) = self.spaced_char(i, '(')?;
        let ghost j0 = j;
        let mut args: Vec<FunctionArg> = Vec::new();
        match self.function_arg(ctx, j) {
            Ok((k, a)) => {
                args.push(a);
                j = k;
                let ghost k0 = k;
                let ghost mut starts: Seq<int> = seq![j0 as int];
                proof {
                    assert(args_read(ctx, self.source@, starts, args@));
                }
                loop
                    invariant
                        parse_pre(self, ctx, j),
                        parse_post(ctx, old(ctx)),
                        i < j,
                        args_valid(ctx, args@),
                        g_fargs_rest(self.source@, k0 as int) == g_fargs_rest(self.source@, j as int),
                        args_read(ctx, self.source@, starts, args@),
                        g_farg_starts(self.source@, i as int) == starts + g_farg_rest_starts(self.source@, j as int),
                    ensures
                        parse_pre(self, ctx, j),
                        parse_post(ctx, old(ctx)),
                        i < j,
                        args_valid(ctx, args@),
                        g_fargs_rest(self.source@, k0 as int) == j,
                        args_read(ctx, self.source@, g_farg_starts(self.source@, i as int), args@),
                    decreases self.source@.len() - j,
                {
                    let k = match self.spaced_char(j, ',') {
                        Ok((k, _)) => k,
                        Err(_) => {
                            proof { assert(starts + g_farg_rest_starts(self.source@, j as int) =~= starts); }
                            break;
                        },
                    };
                    let ghost c1 = *ctx;
                    let res = self.function_arg(ctx, k);
                    proof { lemma_args_read_extends(ctx, &c1, self.source@, starts, args@); }
                    match res {
                        Ok((m, a)) => {
                            proof {
                                let tail = g_farg_rest_starts(self.source@, m as int);
                                assert(g_farg_rest_starts(self.source@, j as int) == seq![k as int] + tail);
                                assert(starts + (seq![k as int] + tail) =~= starts.push(k as int) + tail);
                                starts = starts.push(k as int);
                            }
                            args.push(a);
                            j = m;
                            proof {
                                assert forall|q: int| 0 <= q < args@.len() implies arg_read(ctx, self.source@, #[trigger] starts[q], args@[q]) by {
                                    if q < args@.len() - 1 {
                                        assert(args_read(ctx, self.source@, starts.drop_last(), args@.drop_last()));
                                    }
                                }
                            }
                        },
                        Err(_) => {
                            proof { assert(starts + g_farg_rest_starts(self.source@, j as int) =~= starts); }
                            break;
                        },
                    }
                }
            },
            Err(_) => {
                proof { assert(args_read(ctx, self.source@, g_farg_starts(self.source@, i as int), args@)); }
            },
        }
        let a = self.ws0(j);
        let (b, _) = self.char_tag(a, ')')?;
        Ok((b, args))
    }

    /// `{ STATEMENTS }`.
    fn block(&self, ctx: &mut IrCtx, i: usize) -> (r: Res<Vec<NodeRef>>)
        requires
            parse_pre(self, old(ctx), i),
        ensures
            parse_post(final(ctx), old(ctx)),
            r matches Ok((j, v)) ==> i < j <= self.source@.len() && stmts_valid(final(ctx).nodes@, v@),
            reads(final(ctx), r, g_block(self.source@, i as int)),
            r matches Ok((_, v)) ==> stmts_at(final(ctx).nodes@, v@, g_block_spans(self.source@, i as int)),
        decreases self.source@.len() - i, 11nat,
    {
        let (a, _) = self.spaced_char(i, '{')?;
        let (b, body) = self.statement(ctx, a)?;
        let c = self.ws0(b);
        let (d, _) = self.char_tag(c, '}')?;
        Ok((d, body))
    }

    fn alloc_function(
        &self,
        ctx: &mut IrCtx,
        name: Option<Ident>,
        args: Vec<FunctionArg>,
        return_type: TypeSignature,
        body: Vec<NodeRef>,
        span: Span,
    ) -> (r: NodeRef)
        requires
            old(ctx).wf(),
            args_valid(old(ctx), args@),
            sig_valid(old(ctx), return_type),
            stmts_valid(old(ctx).nodes@, body@),
        ensures
            parse_post(final(ctx), old(ctx)),
            is_func(final(ctx).nodes@, r as int),
            final(ctx).nodes@[r as int]->Function_0.name == name,
            final(ctx).nodes@[r as int]->Function_0.return_type == return_type,
            final(ctx).nodes@[r as int]->Function_1 == span,
            final(ctx).nodes@[r as int]->Function_0.body == body,
            final(ctx).nodes@[r as int]->Function_0.args == args,
    {
        ctx.add_node(Node::Function(Function { name, args, return_type, body }, span))
    }

    /// `( ARG, ... ) [-> TYPE] { STATEMENTS }`: a function expression.
    pub fn function_expr(&self, ctx: &mut IrCtx, i: usize) -> (r: Res<NodeRef>)
        requires
            parse_pre(self, old(ctx), i),
        ensures
            parse_post(final(ctx), old(ctx)),
            r matches Ok((j, f)) ==> i < j <= self.source@.len() && is_func(final(ctx).nodes@, f as int),
            reads(final(ctx), r, g_func_expr(self.source@, i as int)),
            r matches Ok((_, f)) ==> stmts_at(final(ctx).nodes@, final(ctx).nodes@[f as int]->Function_0.body@,
                g_func_expr_body(self.source@, i as int)),
        decreases self.source@.len() - i, 5nat,
    {
        let (a, args) = self.function_args(ctx, i)?;
        let (b, return_type) = self.return_signature(ctx, a)?;
        let span = self.span(i, b);
        let (c, body) = self.block(ctx, b)?;
        let ghost c3 = *ctx;
        let f = self.alloc_function(ctx, None, args, return_type, body, span);
        proof { lemma_spans_extend(ctx.nodes@, c3.nodes@, body@); }
        Ok((c, f))
    }

    /// `func NAME ( ARG, ... ) [-> TYPE] { STATEMENTS }`.
    pub fn function_decl(&self, ctx: &mut IrCtx, i: usize) -> (r: Res<NodeRef>)
        requires
            parse_pre(self, old(ctx), i),
        ensures
            parse_post(final(ctx), old(ctx)),
            r matches Ok((j, f)) ==> {
                &&& i < j <= self.source@.len()
                &&& is_func(final(ctx).nodes@, f as int)
                &&& final(ctx).nodes@[f as int]->Function_0.name matches Some(n)
                &&& named_after(self.source@, i as int, seq!['f', 'u', 'n', 'c'], n)
            },
            reads(final(ctx), r, g_func_decl(self.source@, i as int)),
            r matches Ok((_, f)) ==> stmts_at(final(ctx).nodes@, final(ctx).nodes@[f as int]->Function_0.body@,
                g_func_decl_body(self.source@, i as int)),
            r matches Ok((_, f)) ==> func_typed(final(ctx), self.source@, i as int, f),
        decreases self.source@.len() - i, 8nat,
    {
        proof { super::lemma_ws_end_bounds(self.source@, i as int); }
        let a0 = self.ws0(i);
        let (a1, _) = self.tag(a0, &vec!['f', 'u', 'n', 'c'])?;
        let (a, _) = self.ws1(a1)?;
        let (b, name) = self.identifier(a)?;
        let (c, args) = self.function_args(ctx, b)?;
        let ghost c1 = *ctx;
        let (d, return_type) = self.return_signature(ctx, c)?;
        let ghost c2 = *ctx;
        proof {
            lemma_args_read_extends(ctx, &c1, self.source@, g_farg_starts(self.source@, b as int), args@);
        }
        let span = self.span(i, d);
        let (e, body) = self.block(ctx, d)?;
        let ghost c3 = *ctx;
        proof {
            lemma_args_read_extends(ctx, &c2, self.source@, g_farg_starts(self.source@, b as int), args@);
            lemma_type_read_extends(ctx, &c2, spec_return_annotation(self.source@, c as int), return_type);
        }
        let f = self.alloc_function(ctx, Some(name), args, return_type, body, span);
        proof {
            lemma_spans_extend(ctx.nodes@, c3.nodes@, body@);
            lemma_args_read_extends(ctx, &c3, self.source@, g_farg_starts(self.source@, b as int), args@);
            lemma_type_read_extends(ctx, &c3, spec_return_annotation(self.source@, c as int), return_type);
        }
        Ok((e, f))
    }

    /// `let` (immutable) or `var` (mutable), with whitespace around it.
    pub fn mutability_specifier(&self, i: usize) -> (r: Res<Mutability>)
        requires
            self.wf(),
            i <= self.source@.len(),
        ensures
            r is Ok <==> spec_mutability(self.source@, i as int) is Some,
            r matches Ok((j, m)) ==> spec_mutability(self.source@, i as int) == Some((j as int, m)) && i < j
                <= self.source@.len(),
            r matches Err(e) ==> e.kind == ParserErrorKind::Token,
    {
        match self.spaced_tag(i, &vec!['l', 'e', 't']) {
            Ok((j, _)) => Ok((j, Mutability::Immutable)),
            Err(_) => {
                let (j, _) = self.spaced_tag(i, &vec!['v', 'a', 'r'])?;
                Ok((j, Mutability::Mutable))
            },
        }
    }

    /// `(let | var) NAME [: TYPE] = EXPR`.
    pub fn variable_decl(&self, ctx: &mut IrCtx, i: usize) -> (r: Res<NodeRef>)
        requires
            parse_pre(self, old(ctx), i),
        ensures
            parse_post(final(ctx), old(ctx)),
            r matches Ok((j, v)) ==> i < j <= self.source@.len() && crate::ir::node::is_var(final(ctx).nodes@, v as int)
                && declared(self.source@, i as int, final(ctx).nodes@[v as int]->VarDecl_0.mutability,
                    final(ctx).nodes@[v as int]->VarDecl_0.name)
                && value_read(self.source@, i as int, j as int, final(ctx).nodes@, final(ctx).nodes@[v as int]->VarDecl_0.value)
                && decl_type_read(final(ctx), self.source@, i as int, final(ctx).nodes@[v as int]->VarDecl_0.type_sig),
            reads(final(ctx), r, g_var_decl(self.source@, i as int)),
        decreases self.source@.len() - i, 8nat,
    {
        let (a, mutability) = self.mutability_specifier(i)?;
        let (b, name) = self.identifier(a)?;
        let (c, type_sig) = self.opt_type_annotation(ctx, b, ':')?;
        assert(c == g_annotation(self.source@, b as int, ':'));
        let (d, _) = self.spaced_char(c, '=')?;
        let ghost c1 = *ctx;
        let (e, value) = self.expression(ctx, d)?;
        proof {
            crate::ir::typed::lemma_deep_extends(ctx.types.types@, c1.types.types@, type_sig);
            assert(ctx.types.types@[type_sig.id as int]@ == c1.types.types@[type_sig.id as int]@);
        }
        let ghost c2 = *ctx;
        let v = ctx.add_node(Node::VarDecl(VarDecl { name, mutability, type_sig, value }));
        proof {
            assert(ctx.nodes@[value as int] == c2.nodes@[value as int]);
            assert(ctx.types == c2.types);
            assert(super::expression::expr_read_at(self.source@, c2.nodes@, value));
            super::expression::lemma_expr_read_extends(self.source@, ctx.nodes@, c2.nodes@, value);
        }
        Ok((e, v))
    }

    /// `(let | var) NAME [: TYPE] [= EXPR]`.
    fn struct_attr(&self, ctx: &mut IrCtx, i: usize) -> (r: Res<StructAttr>)
        requires
            parse_pre(self, old(ctx), i),
        ensures
            parse_post(final(ctx), old(ctx)),
            r matches Ok((j, a)) ==> i < j <= self.source@.len() && sig_valid(final(ctx), a.type_sig)
                && (a.default_value matches Some(d) ==> is_expr(final(ctx).nodes@, d as int))
                && attr_read(self.source@, i as int, a)
                && attr_parts_read(final(ctx), self.source@, i as int, a),
            reads(final(ctx), r, g_attr(self.source@, i as int)),
        decreases self.source@.len() - i, 7nat,
    {
        let (a, mutability) = self.mutability_specifier(i)?;
        proof {
            super::lemma_ws_end_bounds(self.source@, i as int);
            let w = ws_end(self.source@, i as int);
            super::lemma_ws_end_bounds(self.source@, w + 3);
            assert(w <= a);
        }
        let (b, name) = self.identifier(a)?;
        let (c, type_sig) = self.opt_type_annotation(ctx, b, ':')?;
        assert(c == g_annotation(self.source@, b as int, ':'));
        let ghost c1 = *ctx;
        let (e, default_value) = match self.spaced_char(c, '=') {
            Ok((d, _)) => match self.expression(ctx, d) {
                Ok((e, v)) => (e, Some(v)),
                Err(_) => {
                    (c, None)
                },
            },
            Err(_) => (c, None),
        };
        proof {
            crate::ir::typed::lemma_deep_extends(ctx.types.types@, c1.types.types@, type_sig);
            assert(ctx.types.types@[type_sig.id as int]@ == c1.types.types@[type_sig.id as int]@);
        }
        let st = self.ws0(i);
        let mut end = e;
        while end > st && (self.source[end - 1] == ' ' || self.source[end - 1] == '\t' || self.source[end - 1] == '\r'
            || self.source[end - 1] == '\n')
            invariant
                st <= end <= e <= self.source@.len(),
                trim_back(self.source@, st as int, end as int) == trim_back(self.source@, st as int, e as int),
            decreases end,
        {
            end = end - 1;
        }
        let span = self.span(st, end);
        Ok((e, StructAttr { name, mutability, type_sig, default_value, span }))
    }

    /// A separator of statements and of declarations in a block: `;` or a newline.
    fn separator(&self, i: usize) -> (r: Res<()>)
        requires
            self.wf(),
            i <= self.source@.len(),
        ensures
            r matches Ok((j, _)) ==> j == i + 1 && j <= self.source@.len(),
            r matches Ok((j, _)) ==> g_separator(self.source@, i as int) == Some(j as int),
            r is Err ==> g_separator(self.source@, i as int) is None,
    {
        match self.char_tag(i, ';') {
            Ok(x) => Ok(x),
            Err(_) => self.char_tag(i, '\n'),
        }
    }

    /// `ATTR ; ... ; ATTR`, separated by `;` or newlines; possibly none.
    #[verifier::rlimit(50)]
    pub fn struct_attrs(&self, ctx: &mut IrCtx, i: usize) -> (r: Res<Vec<StructAttr>>)
        requires
            parse_pre(self, old(ctx), i),
        ensures
            parse_post(final(ctx), old(ctx)),
            r matches Ok((j, attrs)) ==> i <= j <= self.source@.len()
                && forall|m: int| 0 <= m < attrs@.len() ==> sig_valid(final(ctx), (#[trigger] attrs@[m]).type_sig)
                    && (attrs@[m].default_value matches Some(d) ==> is_expr(final(ctx).nodes@, d as int)),
            r matches Ok((j, attrs)) ==> attrs_read(self.source@, g_attr_starts(self.source@, i as int), attrs@),
            r matches Ok((j, attrs)) ==> attrs_parts_read(final(ctx), self.source@, g_attr_starts(self.source@, i as int), attrs@),
            reads(final(ctx), r, Some(g_attrs(self.source@, i as int))),
        decreases self.source@.len() - i, 8nat,
    {
        let mut j = i;
        let mut attrs: Vec<StructAttr> = Vec::new();
        match self.struct_attr(ctx, j) {
            Ok((k, at)) => {
                attrs.push(at);
                j = k;
                let ghost k0 = k;
                let ghost mut starts: Seq<int> = seq![i as int];
                proof {
                    assert(attrs_read(self.source@, starts, attrs@));
                    assert(attrs_parts_read(ctx, self.source@, starts, attrs@));
                }
                loop
                    invariant
                        parse_pre(self, ctx, j),
                        parse_post(ctx, old(ctx)),
                        i < j,
                        forall|m: int| 0 <= m < attrs@.len() ==> sig_valid(ctx, (#[trigger] attrs@[m]).type_sig)
                            && (attrs@[m].default_value matches Some(d) ==> is_expr(ctx.nodes@, d as int)),
                        g_attrs_rest(self.source@, k0 as int) == g_attrs_rest(self.source@, j as int),
                        attrs_read(self.source@, starts, attrs@),
                        attrs_parts_read(ctx, self.source@, starts, attrs@),
                        g_attr_starts(self.source@, i as int) == starts + g_attr_rest_starts(self.source@, j as int),
                    ensures
                        parse_pre(self, ctx, j),
                        parse_post(ctx, old(ctx)),
                        i < j,
                        forall|m: int| 0 <= m < attrs@.len() ==> sig_valid(ctx, (#[trigger] attrs@[m]).type_sig)
                            && (attrs@[m].default_value matches Some(d) ==> is_expr(ctx.nodes@, d as int)),
                        g_attrs_rest(self.source@, k0 as int) == j,
                        attrs_read(self.source@, g_attr_starts(self.source@, i as int), attrs@),
                        attrs_parts_read(ctx, self.source@, g_attr_starts(self.source@, i as int), attrs@),
                    decreases self.source@.len() - j,
                {
                    let k = match self.separator(j) {
                        Ok((k, _)) => k,
                        Err(_) => {
                            proof { assert(starts + g_attr_rest_starts(self.source@, j as int) =~= starts); }
                            break;
                        },
                    };
                    let ghost c1 = *ctx;
                    let res = self.struct_attr(ctx, k);
                    proof {
                        assert forall|q: int| 0 <= q < attrs@.len() && q < starts.len() implies attr_parts_read(ctx,
                            self.source@, #[trigger] starts[q], attrs@[q]) by {
                            lemma_attr_parts_extends(ctx, &c1, self.source@, starts[q], attrs@[q]);
                        }
                    }
                    match res {
                        Ok((m, at)) => {
                            proof {
                                let tail = g_attr_rest_starts(self.source@, m as int);
                                assert(g_attr_rest_starts(self.source@, j as int) == seq![k as int] + tail);
                                assert(starts + (seq![k as int] + tail) =~= starts.push(k as int) + tail);
                                starts = starts.push(k as int);
                            }
                            let ghost prev_attrs = attrs@;
                            attrs.push(at);
                            j = m;
                            proof {
                                assert forall|q: int| 0 <= q < attrs@.len() implies attr_read(self.source@, #[trigger] starts[q], attrs@[q]) by {
                                    if q < attrs@.len() - 1 {
                                        assert(attrs_read(self.source@, starts.drop_last(), attrs@.drop_last()));
                                    }
                                }
                                assert forall|q: int| 0 <= q < attrs@.len() && q < starts.len() implies attr_parts_read(ctx,
                                    self.source@, #[trigger] starts[q], attrs@[q]) by {
                                    if q < attrs@.len() - 1 {
                                        assert(attrs@[q] == prev_attrs[q]);
                                        assert(starts[q] == starts.drop_last()[q]);
                                    }
                                }
                            }
                        },
                        Err(_) => {
                            proof { assert(starts + g_attr_rest_starts(self.source@, j as int) =~= starts); }
                            break;
                        },
                    }
                }
            },
            Err(_) => {
                proof { assert(attrs_read(self.source@, g_attr_starts(self.source@, i as int), attrs@)); }
            },
        }
        Ok((j, attrs))
    }

    /// `struct NAME { ATTR ; ... }`.
    pub fn structure(&self, ctx: &mut IrCtx, i: usize) -> (r: Res<NodeRef>)
        requires
            parse_pre(self, old(ctx), i),
        ensures
            parse_post(final(ctx), old(ctx)),
            r matches Ok((j, s)) ==> i < j <= self.source@.len() && crate::ir::node::is_struct(final(ctx).nodes@, s as int)
                && named_after(self.source@, i as int, seq!['s', 't', 'r', 'u', 'c', 't'],
                    final(ctx).nodes@[s as int]->Struct_0.name)
                && (super::grammar::g_named(self.source@, i as int, seq!['s', 't', 'r', 'u', 'c', 't']) matches Some(b)
                    && super::grammar::g_char(self.source@, b, '{') matches Some(k)
                    && attrs_read(self.source@, g_attr_starts(self.source@, k), final(ctx).nodes@[s as int]->Struct_0.attrs@)
                    && attrs_parts_read(final(ctx), self.source@, g_attr_starts(self.source@, k),
                        final(ctx).nodes@[s as int]->Struct_0.attrs@)),
            reads(final(ctx), r, g_struct(self.source@, i as int)),
        decreases self.source@.len() - i, 8nat,
    {
        proof { super::lemma_ws_end_bounds(self.source@, i as int); }
        let a0 = self.ws0(i);
        let (a1, _) = self.tag(a0, &vec!['s', 't', 'r', 'u', 'c', 't'])?;
        let (a, _) = self.ws1(a1)?;
        let (b, name) = self.identifier(a)?;
        let (j0, _) = self.spaced_char(b, '{')?;
        let (j, attrs) = self.struct_attrs(ctx, j0)?;
        let c = self.ws0(j);
        let (d, _) = self.char_tag(c, '}')?;
        let ghost c1 = *ctx;
        let ghost av = attrs@;
        let s = ctx.add_node(Node::Struct(Struct { name, attrs }));
        proof {
            let starts = g_attr_starts(self.source@, j0 as int);
            assert forall|q: int| 0 <= q < av.len() && q < starts.len() implies attr_parts_read(ctx,
                self.source@, #[trigger] starts[q], av[q]) by {
                lemma_attr_parts_extends(ctx, &c1, self.source@, starts[q], av[q]);
            }
        }
        Ok((d, s))
    }

    /// `NAME [( TYPE, ... )]`.
    fn enum_value(&self, ctx: &mut IrCtx, i: usize) -> (r: Res<EnumValue>)
        requires
            parse_pre(self, old(ctx), i),
        ensures
            parse_post(final(ctx), old(ctx)),
            r matches Ok((j, v)) ==> {
                &&& i < j <= self.source@.len()
                &&& sigs_in(v.items@, final(ctx).types.types@.len() as int)
                &&& spec_identifier(self.source@, i as int) matches Some((x, y, _))
                &&& v.name.name@ == self.source@.subrange(x, y)
                &&& value_items_read(final(ctx), self.source@, i as int, v)
            },
            reads(final(ctx), r, g_enum_value(self.source@, i as int)),
    {
        let (a, name) = self.identifier(i)?;
        let (b, items) = match self.type_sig_list1(ctx, a) {
            Ok((b, items)) => (b, items),
            Err(_) => {
                (a, Vec::new())
            },
        };
        Ok((b, EnumValue { name, items }))
    }

    /// `( TYPE, ... )` with at least one type.
    fn type_sig_list1(&self, ctx: &mut IrCtx, i: usize) -> (r: Res<Vec<TypeSignature>>)
        requires
            parse_pre(self, old(ctx), i),
        ensures
            parse_post(final(ctx), old(ctx)),
            r matches Ok((j, v)) ==> i < j <= self.source@.len() && sigs_in(v@, final(ctx).types.types@.len() as int),
            r matches Ok((j, v)) ==> types_read(final(ctx), self.source@, g_type_starts(self.source@, i as int), v@),
            reads(final(ctx), r, g_types1(self.source@, i as int)),
    {
        let (mut j, _) = self.spaced_char(i, '(')?;
        let ghost j0 = j;
        let mut sigs: Vec<TypeSignature> = Vec::new();
        let (k, (t, _)) = self.type_signature(ctx, j)?;
        sigs.push(t);
        j = k;
        let ghost k0 = k;
        let ghost mut starts: Seq<int> = seq![j0 as int];
        proof {
            assert(types_read(ctx, self.source@, starts, sigs@));
        }
        loop
            invariant
                parse_pre(self, ctx, j),
                parse_post(ctx, old(ctx)),
                i < j,
                sigs_in(sigs@, ctx.types.types@.len() as int),
                g_types_rest(self.source@, k0 as int) == g_types_rest(self.source@, j as int),
                types_read(ctx, self.source@, starts, sigs@),
                g_type_starts(self.source@, i as int) == starts + g_type_rest_starts(self.source@, j as int),
            ensures
                parse_pre(self, ctx, j),
                parse_post(ctx, old(ctx)),
                i < j,
                sigs_in(sigs@, ctx.types.types@.len() as int),
                g_types_rest(self.source@, k0 as int) == j,
                types_read(ctx, self.source@, g_type_starts(self.source@, i as int), sigs@),
            decreases self.source@.len() - j,
        {
            let k = match self.spaced_char(j, ',') {
                Ok((k, _)) => k,
                Err(_) => {
                    proof { assert(starts + g_type_rest_starts(self.source@, j as int) =~= starts); }
                    break;
                },
            };
            let ghost c1 = *ctx;
            let res = self.type_signature(ctx, k);
            proof { lemma_types_read_extends(ctx, &c1, self.source@, starts, sigs@); }
            match res {
                Ok((m, (t, _))) => {
                    proof {
                        let tail = g_type_rest_starts(self.source@, m as int);
                        assert(g_type_rest_starts(self.source@, j as int) == seq![k as int] + tail);
                        assert(starts + (seq![k as int] + tail) =~= starts.push(k as int) + tail);
                        starts = starts.push(k as int);
                    }
                    sigs.push(t);
                    j = m;
                    proof {
                        assert forall|q: int| 0 <= q < sigs@.len() implies type_at(ctx, self.source@, starts[q], #[trigger] sigs@[q]) by {
                            if q < sigs@.len() - 1 {
                                assert(types_read(ctx, self.source@, starts.drop_last(), sigs@.drop_last()));
                                assert(sigs@[q] == sigs@.drop_last()[q]);
                                assert(starts[q] == starts.drop_last()[q]);
                            }
                        }
                    }
                },
                Err(_) => {
                    proof { assert(starts + g_type_rest_starts(self.source@, j as int) =~= starts); }
                    break;
                },
            }
        }
        let a = self.ws0(j);
        let (b, _) = self.char_tag(a, ')')?;
        Ok((b, sigs))
    }

    /// `VALUE ; ... ; VALUE`, separated by `;` or newlines; possibly none.
    pub fn enum_values(&self, ctx: &mut IrCtx, i: usize) -> (r: Res<Vec<EnumValue>>)
        requires
            parse_pre(self, old(ctx), i),
        ensures
            parse_post(final(ctx), old(ctx)),
            r matches Ok((j, values)) ==> i <= j <= self.source@.len()
                && forall|m: int| 0 <= m < values@.len() ==> sigs_in((#[trigger] values@[m]).items@, final(ctx).types.types@.len() as int),
            r matches Ok((j, values)) ==> values_read(self.source@, g_value_starts(self.source@, i as int), values@),
            r matches Ok((j, values)) ==> values_items_read(final(ctx), self.source@, g_value_starts(self.source@, i as int), values@),
            reads(final(ctx), r, Some(g_enum_values(self.source@, i as int))),
    {
        let mut j = i;
        let mut values: Vec<EnumValue> = Vec::new();
        match self.enum_value(ctx, j) {
            Ok((k, v)) => {
                values.push(v);
                j = k;
                let ghost k0 = k;
                let ghost mut starts: Seq<int> = seq![i as int];
                proof {
                    assert(values_read(self.source@, starts, values@));
                    assert(values_items_read(ctx, self.source@, starts, values@));
                }
                loop
                    invariant
                        parse_pre(self, ctx, j),
                        parse_post(ctx, old(ctx)),
                        i < j,
                        forall|m: int| 0 <= m < values@.len() ==> sigs_in((#[trigger] values@[m]).items@, ctx.types.types@.len() as int),
                        g_enum_values_rest(self.source@, k0 as int) == g_enum_values_rest(self.source@, j as int),
                        values_read(self.source@, starts, values@),
                        values_items_read(ctx, self.source@, starts, values@),
                        g_value_starts(self.source@, i as int) == starts + g_value_rest_starts(self.source@, j as int),
                    ensures
                        parse_pre(self, ctx, j),
                        parse_post(ctx, old(ctx)),
                        i < j,
                        forall|m: int| 0 <= m < values@.len() ==> sigs_in((#[trigger] values@[m]).items@, ctx.types.types@.len() as int),
                        g_enum_values_rest(self.source@, k0 as int) == j,
                        values_read(self.source@, g_value_starts(self.source@, i as int), values@),
                        values_items_read(ctx, self.source@, g_value_starts(self.source@, i as int), values@),
                    decreases self.source@.len() - j,
                {
                    let k = match self.separator(j) {
                        Ok((k, _)) => k,
                        Err(_) => {
                            proof { assert(starts + g_value_rest_starts(self.source@, j as int) =~= starts); }
                            break;
                        },
                    };
                    let ghost c1 = *ctx;
                    let res = self.enum_value(ctx, k);
                    proof { lemma_values_items_extends(ctx, &c1, self.source@, starts, values@); }
                    match res {
                        Ok((m, v)) => {
                            proof {
                                let tail = g_value_rest_starts(self.source@, m as int);
                                assert(g_value_rest_starts(self.source@, j as int) == seq![k as int] + tail);
                                assert(starts + (seq![k as int] + tail) =~= starts.push(k as int) + tail);
                                starts = starts.push(k as int);
                            }
                            values.push(v);
                            j = m;
                            proof {
                                assert forall|q: int| 0 <= q < values@.len() implies enum_value_read(self.source@, #[trigger] starts[q], values@[q]) by {
                                    if q < values@.len() - 1 {
                                        assert(values_read(self.source@, starts.drop_last(), values@.drop_last()));
                                    }
                                }
                                assert forall|q: int| 0 <= q < values@.len() && q < starts.len() implies value_items_read(ctx,
                                    self.source@, #[trigger] starts[q], values@[q]) by {
                                    if q < values@.len() - 1 {
                                        assert(values@[q] == values@.drop_last()[q]);
                                        assert(starts[q] == starts.drop_last()[q]);
                                    }
                                }
                            }
                        },
                        Err(_) => {
                            proof { assert(starts + g_value_rest_starts(self.source@, j as int) =~= starts); }
                            break;
                        },
                    }
                }
            },
            Err(_) => {
                proof { assert(values_read(self.source@, g_value_starts(self.source@, i as int), values@)); }
            },
        }
        Ok((j, values))
    }

    /// `enum NAME { VALUE ; ... }`.
    pub fn enumeration(&self, ctx: &mut IrCtx, i: usize) -> (r: Res<NodeRef>)
        requires
            parse_pre(self, old(ctx), i),
        ensures
            parse_post(final(ctx), old(ctx)),
            r matches Ok((j, e)) ==> {
                &&& i < j <= self.source@.len()
                &&& crate::ir::node::is_enum(final(ctx).nodes@, e as int)
                &&& spec_spaced_tag(self.source@, i as int, seq!['e', 'n', 'u', 'm']) matches Some(a)
                &&& spec_identifier(self.source@, a) matches Some((x, y, _))
                &&& final(ctx).nodes@[e as int]->Enum_0.name.name@ == self.source@.subrange(x, y)
                &&& enum_body_at(self.source@, i as int) matches Some(k)
                &&& values_read(self.source@, g_value_starts(self.source@, k), final(ctx).nodes@[e as int]->Enum_0.values@)
                &&& values_items_read(final(ctx), self.source@, g_value_starts(self.source@, k),
                    final(ctx).nodes@[e as int]->Enum_0.values@)
            },
            reads(final(ctx), r, g_enum(self.source@, i as int)),
    {
        let (a, _) = self.spaced_tag(i, &vec!['e', 'n', 'u', 'm'])?;
        let (b, name) = self.identifier(a)?;
        let (j0, _) = self.spaced_char(b, '{')?;
        let (j, values) = self.enum_values(ctx, j0)?;
        let c = self.ws0(j);
        let (d, _) = self.char_tag(c, '}')?;
        let ghost c1 = *ctx;
        let ghost vs = values@;
        let e = ctx.add_node(Node::Enum(Enum { name, values }));
        proof { lemma_values_items_extends(ctx, &c1, self.source@, g_value_starts(self.source@, j0 as int), vs); }
        Ok((d, e))
    }

    /// `// TEXT` up to the end of the line.
    pub fn line_comment(&self, i: usize) -> (r: Res<Vec<char>>)
        requires
            self.wf(),
            i <= self.source@.len(),
        ensures
            ({
                let a = ws_end(self.source@, i as int);
                &&& r is Ok <==> (a + 2 <= self.source@.len() && self.source@.subrange(a, a + 2) == seq!['/', '/'])
                &&& r matches Ok((j, text)) ==> i < j <= self.source@.len() && j == line_end(self.source@, a + 2)
                    && text@ == self.source@.subrange(a + 2, j as int)
            }),
    {
        let a = self.ws0(i);
        let (b, _) = self.tag(a, &vec!['/', '/'])?;
        let mut c = b;
        while c < self.source.len() && self.source[c] != '\n' && self.source[c] != '\r'
            invariant
                b <= c <= self.source@.len(),
                line_end(self.source@, b as int) == line_end(self.source@, c as int),
            decreases self.source@.len() - c,
        {
            c = c + 1;
        }
        Ok((c, self.text(b, c)))
    }

    /// `/* TEXT */`, with whitespace around it. The text runs to the end of
    /// its line, where a newline, a carriage return or the end of the input
    /// stands, so the closing `*/` never follows it: nothing is read as a
    /// block comment.
    pub fn block_comment(&self, i: usize) -> (r: Res<Vec<char>>)
        requires
            self.wf(),
            i <= self.source@.len(),
        ensures
            ({
                let a = ws_end(self.source@, i as int);
                let opens = a + 2 <= self.source@.len() && self.source@.subrange(a, a + 2) == seq!['/', '*'];
                r matches Err(e) && e.kind == ParserErrorKind::Token
                    && e.offset == (if opens { line_end(self.source@, a + 2) } else { a })
            }),
    {
        let a = self.ws0(i);
        let (b, _) = self.tag(a, &vec!['/', '*'])?;
        let mut c = b;
        while c < self.source.len() && self.source[c] != '\n' && self.source[c] != '\r'
            invariant
                b <= c <= self.source@.len(),
                line_end(self.source@, b as int) == line_end(self.source@, c as int),
            decreases self.source@.len() - c,
        {
            c = c + 1;
        }
        let close = vec!['*', '/'];
        proof {
            if c + 2 <= self.source@.len() {
                assert(self.source@.subrange(c as int, c + 2)[0] == self.source@[c as int]);
                assert(close@[0] == '*');
            }
        }
        let (d, _) = self.tag(c, &close)?;
        let e = self.ws0(d);
        Ok((e, self.text(b, c)))
    }

    /// A comment: a line comment or a block comment.
    pub fn comment(&self, i: usize) -> (r: Res<Vec<char>>)
        requires
            self.wf(),
            i <= self.source@.len(),
        ensures
            ({
                let a = ws_end(self.source@, i as int);
                &&& r is Ok <==> (a + 2 <= self.source@.len() && self.source@.subrange(a, a + 2) == seq!['/', '/'])
                &&& r matches Ok((j, text)) ==> i < j <= self.source@.len() && j == line_end(self.source@, a + 2)
                    && text@ == self.source@.subrange(a + 2, j as int)
            }),
            r matches Ok((j, _)) ==> g_comment(self.source@, i as int) == Some(j as int),
            r is Err ==> g_comment(self.source@, i as int) is None,
    {
        match self.line_comment(i) {
            Ok(x) => Ok(x),
            Err(_) => self.block_comment(i),
        }
    }

    /// `return EXPR`.
    pub fn stmt_return(&self, ctx: &mut IrCtx, i: usize) -> (r: Res<NodeRef>)
        requires
            parse_pre(self, old(ctx), i),
        ensures
            parse_post(final(ctx), old(ctx)),
            r matches Ok((j, e)) ==> i < j <= self.source@.len() && is_expr(final(ctx).nodes@, e as int)
                && spec_spaced_tag(self.source@, i as int, seq!['r', 'e', 't', 'u', 'r', 'n']) == Some(
                    final(ctx).nodes@[e as int]->Expr_1.start as int) && final(ctx).nodes@[e as int]->Expr_1.end == j
                && super::expression::expr_read_at(self.source@, final(ctx).nodes@, e),
            reads(final(ctx), r, g_return(self.source@, i as int)),
        decreases self.source@.len() - i, 8nat,
    {
        let (a, _) = self.spaced_tag(i, &vec!['r', 'e', 't', 'u', 'r', 'n'])?;
        self.expression(ctx, a)
    }

    /// One statement, tried in this order: a comment, a variable, a function,
    /// a struct, an enum, a return, an expression.
    #[verifier::rlimit(100)]
    #[verifier::spinoff_prover]
    pub fn single_statement(&self, ctx: &mut IrCtx, i: usize) -> (r: Res<NodeRef>)
        requires
            parse_pre(self, old(ctx), i),
        ensures
            parse_post(final(ctx), old(ctx)),
            r matches Ok((j, s)) ==> i < j <= self.source@.len() && is_stmt(final(ctx).nodes@, s as int)
                && final(ctx).nodes@[s as int]->Stmt_1.start == i && final(ctx).nodes@[s as int]->Stmt_1.end == j
                && stmt_read(self.source@, i as int, j as int, final(ctx).nodes@, final(ctx).nodes@[s as int]->Stmt_0),
            reads(final(ctx), r, g_stmt(self.source@, i as int)),
            r matches Ok((_, s)) ==> stmt_choice(self.source@, i as int, final(ctx).nodes@[s as int]->Stmt_0),
            r matches Ok((_, s)) ==> stmt_typed_at(final(ctx), self.source@, s),
        decreases self.source@.len() - i, 9nat,
    {
        let (j, value) = if let Ok((j, c)) = self.comment(i) {
            (j, Stmt::Comment(c))
        } else {
            match self.variable_decl(ctx, i) {
                Ok((j, v)) => (j, Stmt::VariableDecl(v)),
                Err(e) => {
                    match self.function_decl(ctx, i) {
                        Ok((j, f)) => (j, Stmt::FunctionDecl(f)),
                        Err(e) => {
                            match self.structure(ctx, i) {
                                Ok((j, s)) => (j, Stmt::StructDecl(s)),
                                Err(e) => {
                                    match self.enumeration(ctx, i) {
                                        Ok((j, e)) => (j, Stmt::EnumDecl(e)),
                                        Err(e) => {
                                            match self.stmt_return(ctx, i) {
                                                Ok((j, e)) => (j, Stmt::Return(e)),
                                                Err(e) => {
                                                    match self.expression(ctx, i) {
                                                        Ok((j, e)) => (j, Stmt::Expression(e)),
                                                        Err(e) => {
                                                            return Err(
                                                                ParserError { offset: e.offset, kind: ParserErrorKind::Statement },
                                                            );
                                                        },
                                                    }
                                                },
                                            }
                                        },
                                    }
                                },
                            }
                        },
                    }
                },
            }
        };
        let span = self.span(i, j);
        let ghost c1 = *ctx;
        let ghost sv = value;
        let s = ctx.add_node(Node::Stmt(value, span));
        proof {
            if let Stmt::VariableDecl(v) = sv {
                assert(ctx.nodes@[v as int] == c1.nodes@[v as int]);
                assert(crate::ir::node::node_ok(c1.nodes@, v as int, c1.types.types@.len() as int));
                let x = c1.nodes@[v as int]->VarDecl_0.value;
                assert(ctx.nodes@[x as int] == c1.nodes@[x as int]);
                super::expression::lemma_expr_read_extends(self.source@, ctx.nodes@, c1.nodes@, x);
            }
            if let Stmt::Return(x) = sv {
                assert(super::expression::expr_read_at(self.source@, c1.nodes@, x));
                super::expression::lemma_expr_read_extends(self.source@, ctx.nodes@, c1.nodes@, x);
            }
            if let Stmt::Expression(x) = sv {
                assert(super::expression::expr_read_at(self.source@, c1.nodes@, x));
                super::expression::lemma_expr_read_extends(self.source@, ctx.nodes@, c1.nodes@, x);
            }
            if let Stmt::EnumDecl(d) = sv {
                assert(ctx.nodes@[d as int] == c1.nodes@[d as int]);
                let k = enum_body_at(self.source@, i as int)->0;
                lemma_values_items_extends(ctx, &c1, self.source@, g_value_starts(self.source@, k),
                    c1.nodes@[d as int]->Enum_0.values@);
            }
            if let Stmt::FunctionDecl(f) = sv {
                lemma_func_typed_extends(ctx, &c1, self.source@, i as int, f);
                assert(ctx.nodes@[f as int] == c1.nodes@[f as int]);
                assert(crate::ir::node::node_ok(c1.nodes@, f as int, c1.types.types@.len() as int));
                let body = c1.nodes@[f as int]->Function_0.body@;
                assert forall|k: int| 0 <= k < body.len() implies is_stmt(c1.nodes@, #[trigger] body[k] as int) by {}
                lemma_spans_extend(ctx.nodes@, c1.nodes@, body);
            }
            if let Stmt::StructDecl(d) = sv {
                assert(ctx.nodes@[d as int] == c1.nodes@[d as int]);
                let k = struct_body_at(self.source@, i as int)->0;
                let starts = g_attr_starts(self.source@, k);
                let attrs = c1.nodes@[d as int]->Struct_0.attrs@;
                assert forall|q: int| 0 <= q < attrs.len() && q < starts.len() implies attr_parts_read(ctx, self.source@,
                    #[trigger] starts[q], attrs[q]) by {
                    lemma_attr_parts_extends(ctx, &c1, self.source@, starts[q], attrs[q]);
                }
            }
        }
        Ok((j, s))
    }

    /// Statements separated by `;` or newlines, with an optional final `;`.
    #[verifier::rlimit(50)]
    #[verifier::spinoff_prover]
    pub fn statement(&self, ctx: &mut IrCtx, i: usize) -> (r: Res<Vec<NodeRef>>)
        requires
            parse_pre(self, old(ctx), i),
        ensures
            parse_post(final(ctx), old(ctx)),
            r matches Ok((j, v)) ==> i <= j <= self.source@.len() && stmts_valid(final(ctx).nodes@, v@)
                && stmts_in_order(final(ctx).nodes@, v@, i as int, j as int),
            reads(final(ctx), r, Some(g_stmts(self.source@, i as int))),
            r matches Ok((_, v)) ==> stmts_at(final(ctx).nodes@, v@, g_stmt_spans(self.source@, i as int)),
            r matches Ok((_, v)) ==> stmts_read(self.source@, final(ctx).nodes@, v@),
            r matches Ok((_, v)) ==> stmts_typed(final(ctx), self.source@, v@),
        decreases self.source@.len() - i, 10nat,
    {
        let mut stmts: Vec<NodeRef> = Vec::new();
        let mut j = i;
        let ghost mut k0 = i;
        match self.single_statement(ctx, i) {
            Ok((k, s)) => {
                stmts.push(s);
                j = k;
                proof {
                    k0 = k;
                    assert(spans_of(ctx.nodes@, stmts@) =~= seq![(i as int, k as int)]);
                }
                loop
                    invariant
                        parse_pre(self, ctx, j),
                        parse_post(ctx, old(ctx)),
                        i < j,
                        stmts_valid(ctx.nodes@, stmts@),
                        stmts@.len() > 0,
                        stmts_in_order(ctx.nodes@, stmts@, i as int, j as int),
                        ctx.nodes@[stmts@.last() as int]->Stmt_1.end == j,
                        g_stmts_rest(self.source@, k0 as int) == g_stmts_rest(self.source@, j as int),
                        g_stmt_spans(self.source@, i as int) == spans_of(ctx.nodes@, stmts@) + g_stmt_spans_rest(self.source@, j as int),
                        stmts_read(self.source@, ctx.nodes@, stmts@),
                        stmts_typed(ctx, self.source@, stmts@),
                    ensures
                        parse_pre(self, ctx, j),
                        parse_post(ctx, old(ctx)),
                        i < j,
                        stmts_valid(ctx.nodes@, stmts@),
                        stmts_in_order(ctx.nodes@, stmts@, i as int, j as int),
                        g_stmts_rest(self.source@, k0 as int) == j,
                        g_stmt_spans(self.source@, i as int) == spans_of(ctx.nodes@, stmts@),
                        stmts_read(self.source@, ctx.nodes@, stmts@),
                        stmts_typed(ctx, self.source@, stmts@),
                    decreases self.source@.len() - j,
                {
                    let k = match self.separator(j) {
                        Ok((k, _)) => k,
                        Err(_) => {
                            assert(spans_of(ctx.nodes@, stmts@) + g_stmt_spans_rest(self.source@, j as int) =~= spans_of(
                                ctx.nodes@,
                                stmts@,
                            ));
                            break;
                        },
                    };
                    let ghost c1 = *ctx;
                    let ghost st1 = stmts@;
                    match self.single_statement(ctx, k) {
                        Ok((m, s)) => {
                            proof {
                                assert forall|a: int| 0 <= a < stmts@.len() implies ctx.nodes@[#[trigger] stmts@[a] as int]
                                    == c1.nodes@[stmts@[a] as int] by {
                                    assert(crate::ir::node::is_stmt(c1.nodes@, stmts@[a] as int));
                                }
                                assert(spans_of(ctx.nodes@, st1) =~= spans_of(c1.nodes@, st1));
                                assert forall|a: int| 0 <= a < st1.len() implies stmt_read_at(self.source@, ctx.nodes@, #[trigger] st1[a]) by {
                                    lemma_stmt_read_extends(self.source@, ctx.nodes@, c1.nodes@, c1.types.types@.len() as int, st1[a]);
                                }
                                assert forall|a: int| 0 <= a < st1.len() implies stmt_typed_at(ctx, self.source@, #[trigger] st1[a]) by {
                                    lemma_stmt_typed_extends(self.source@, ctx, &c1, st1[a]);
                                }
                            }
                            stmts.push(s);
                            proof {
                                assert(spans_of(ctx.nodes@, stmts@) =~= spans_of(ctx.nodes@, st1).push((k as int, m as int)));
                                assert(g_stmt_spans_rest(self.source@, j as int) == seq![(k as int, m as int)]
                                    + g_stmt_spans_rest(self.source@, m as int));
                                assert(spans_of(ctx.nodes@, st1) + g_stmt_spans_rest(self.source@, j as int) =~= spans_of(
                                    ctx.nodes@,
                                    stmts@,
                                ) + g_stmt_spans_rest(self.source@, m as int));
                            }
                            j = m;
                        },
                        Err(e) => {
                            proof {
                                assert forall|a: int| 0 <= a < st1.len() implies stmt_read_at(self.source@, ctx.nodes@, #[trigger] st1[a]) by {
                                    lemma_stmt_read_extends(self.source@, ctx.nodes@, c1.nodes@, c1.types.types@.len() as int, st1[a]);
                                }
                                assert forall|a: int| 0 <= a < st1.len() implies stmt_typed_at(ctx, self.source@, #[trigger] st1[a]) by {
                                    lemma_stmt_typed_extends(self.source@, ctx, &c1, st1[a]);
                                }
                                assert(spans_of(ctx.nodes@, st1) =~= spans_of(c1.nodes@, st1)) by {
                                    assert forall|a: int| 0 <= a < st1.len() implies ctx.nodes@[#[trigger] st1[a] as int]
                                        == c1.nodes@[st1[a] as int] by {
                                        assert(crate::ir::node::is_stmt(c1.nodes@, st1[a] as int));
                                    }
                                }
                                assert(spans_of(ctx.nodes@, stmts@) + g_stmt_spans_rest(self.source@, j as int) =~= spans_of(
                                    ctx.nodes@,
                                    stmts@,
                                ));
                            }
                            break;
                        },
                    }
                }
            },
            Err(_) => {
                assert(spans_of(ctx.nodes@, stmts@) =~= g_stmt_spans(self.source@, i as int));
            },
        }
        let j2 = match self.spaced_char(j, ';') {
            Ok((k, _)) => k,
            Err(_) => j,
        };
        Ok((j2, stmts))
    }
}

} // verus!
