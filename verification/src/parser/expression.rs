use vstd::prelude::*;

use crate::ir::context::IrCtx;
use crate::ir::node::{expr_ok, is_expr, is_func, Expr, Ident, Node, NodeRef, Span, StructInitValue};
use crate::ir::types::BuiltinType;

use super::grammar::{
    g_arg_spans, g_arg_spans_rest,
    base_choice,
    brace_at, close_at, g_anon_member, g_args, g_args_rest, g_assign, g_base, g_bool, g_escape, g_escape_content,
    g_expr, g_init_value, g_init_values_rest, g_number, g_string, g_struct_init, g_tail, quote_at, reads,
};
use super::identifier::{spec_identifier, spec_is_whitespace};
use super::type_signature::sig_valid;
use super::{
    exprs_valid, parse_post, parse_pre, spec_spaced_char, ws_end, ParserContext, ParserError, ParserErrorKind, Res,
};

verus! {

/// The expression value only refers to nodes and types of the context.
pub open spec fn expr_value_valid(ctx: &IrCtx, e: Expr) -> bool {
    expr_ok(ctx.nodes@, ctx.nodes@.len() as int, e, ctx.types.types@.len() as int)
}

/// An ASCII decimal digit.
pub open spec fn is_digit(c: char) -> bool {
    '0' <= c && c <= '9'
}

/// The end of the run of digits that starts at `i`.
pub open spec fn digits_end(s: Seq<char>, i: int) -> int
    decreases s.len() - i,
{
    if i < 0 || i >= s.len() || !is_digit(s[i]) {
        i
    } else {
        digits_end(s, i + 1)
    }
}

proof fn lemma_digits_end(s: Seq<char>, i: int)
    requires
        0 <= i <= s.len(),
    ensures
        i <= digits_end(s, i) <= s.len(),
        forall|k: int| i <= k < digits_end(s, i) ==> is_digit(#[trigger] s[k]),
    decreases s.len() - i,
{
    if i < s.len() && is_digit(s[i]) {
        lemma_digits_end(s, i + 1);
    }
}

/// The position after a number literal at `i`: digits, then optionally a
/// point and, optionally, more digits.
pub open spec fn number_end(s: Seq<char>, i: int) -> int {
    let a = digits_end(s, i);
    if a < s.len() && s[a] == '.' {
        digits_end(s, a + 1)
    } else {
        a
    }
}

/// The value of the decimal digit `c`.
pub open spec fn digit_value(c: char) -> int {
    (c as int) - ('0' as int)
}

/// The number that the decimal digits `i..j` of `s` write.
pub open spec fn decimal_value(s: Seq<char>, i: int, j: int) -> int
    decreases j - i,
{
    if j <= i {
        0
    } else {
        decimal_value(s, i, j - 1) * 10 + digit_value(s[j - 1])
    }
}

/// More digits never write a smaller number.
proof fn lemma_decimal_value_grows(s: Seq<char>, i: int, j: int)
    requires
        i <= j <= s.len(),
        0 <= i,
        forall|k: int| i <= k < j ==> is_digit(s[k]),
    ensures
        forall|a: int, b: int| i <= a <= b <= j ==> decimal_value(s, i, a) <= decimal_value(s, i, b),
        forall|a: int| i <= a <= j ==> decimal_value(s, i, a) >= 0,
    decreases j - i,
{
    if j > i {
        lemma_decimal_value_grows(s, i, j - 1);
        assert(is_digit(s[j - 1]));
        assert(digit_value(s[j - 1]) >= 0);
        assert(decimal_value(s, i, j - 1) >= 0);
        assert forall|a: int, b: int| i <= a <= b <= j implies decimal_value(s, i, a) <= decimal_value(s, i, b) by {
            if b == j && a < j {
                let v = decimal_value(s, i, j - 1);
                assert(decimal_value(s, i, a) <= v);
                assert(v <= v * 10) by (nonlinear_arith)
                    requires
                        v >= 0,
                ;
            }
        }
    }
}

/// The first position of `i..j` that holds no whitespace, or `j`.
pub open spec fn trim_start(s: Seq<char>, i: int, j: int) -> int
    decreases j - i,
{
    if i < j && spec_is_whitespace(s[i]) {
        trim_start(s, i + 1, j)
    } else {
        i
    }
}

/// The position after the last character of `i..j` that is no whitespace,
/// or `i`.
pub open spec fn trim_end(s: Seq<char>, i: int, j: int) -> int
    decreases j - i,
{
    if i < j && spec_is_whitespace(s[j - 1]) {
        trim_end(s, i, j - 1)
    } else {
        j
    }
}

/// What the base of an expression, read from `i` to `j`, holds: a name is
/// the identifier at `i`, a literal is the text that writes it.
pub open spec fn base_read(s: Seq<char>, i: int, j: int, e: Expr) -> bool {
    match e {
        Expr::Identifier(id) => spec_identifier(s, i) matches Some((a, b, k)) && k == j && id.name@ == s.subrange(a, b),
        Expr::StringLiteral(v) => s[i] == '"' && s[j - 1] == '"' && v@ == s.subrange(i + 1, j - 1),
        Expr::NumberLiteral(v) => j == number_end(s, i) && v@ == s.subrange(i, j),
        Expr::BoolLiteral(b) => s.subrange(i, j) == (if b {
            seq!['t', 'r', 'u', 'e']
        } else {
            seq!['f', 'a', 'l', 's', 'e']
        }),
        Expr::StructInit { struct_name, .. } => spec_identifier(s, i) matches Some((a, b, _))
            && struct_name.name@ == s.subrange(a, b),
        Expr::UnresolvedMemberAccess { object, member_name, .. } => object is None && (spec_spaced_char(s, i, '.')
            matches Some(a) && spec_identifier(s, a) matches Some((x, y, _)) && member_name.name@ == s.subrange(x, y)),
        Expr::Function(_) | Expr::Tuple(_) | Expr::EscapeBlock { .. } => true,
        _ => false,
    }
}

/// The expression `e` is `base` followed by calls, member accesses and
/// tuple accesses, each applied to the one before.
pub open spec fn access_chain(nodes: Seq<Node>, e: NodeRef, base: NodeRef) -> bool
    decreases e,
{
    e == base || (base < e && match nodes[e as int] {
        Node::Expr(Expr::FunctionCall { func, .. }, _) => func < e && access_chain(nodes, func, base),
        Node::Expr(Expr::UnresolvedMemberAccess { object: Some(o), .. }, _) => o < e && access_chain(nodes, o, base),
        Node::Expr(Expr::TupleAccess { tuple_expr, .. }, _) => tuple_expr < e && access_chain(nodes, tuple_expr, base),
        _ => false,
    })
}

/// The expression `e` is an access chain from `base`, or an assignment to
/// one.
pub open spec fn assign_chain(nodes: Seq<Node>, e: NodeRef, base: NodeRef) -> bool
    decreases e,
{
    access_chain(nodes, e, base) || (base < e && match nodes[e as int] {
        Node::Expr(Expr::Assignment { lhs, .. }, _) => lhs < e && assign_chain(nodes, lhs, base),
        _ => false,
    })
}

/// The expression at node `e` is what the language reads from where it
/// starts: a base that the language picks there, read as `base_read` says,
/// followed by accesses and assignments.
pub open spec fn expr_read_at(s: Seq<char>, nodes: Seq<Node>, e: NodeRef) -> bool {
    let i = nodes[e as int]->Expr_1.start as int;
    exists|b: NodeRef| #![trigger nodes[b as int]]
        b <= e && is_expr(nodes, b as int)
        && base_read(s, i, nodes[b as int]->Expr_1.end as int, nodes[b as int]->Expr_0)
        && base_choice(s, i, nodes[b as int]->Expr_0)
        && assign_chain(nodes, e, b)
}

/// What an expression was read as stays so when nodes are added.
pub proof fn lemma_expr_read_extends(s: Seq<char>, new: Seq<Node>, old: Seq<Node>, e: NodeRef)
    requires
        old.len() <= new.len(),
        forall|i: int| 0 <= i < old.len() ==> #[trigger] new[i] == old[i],
        e < old.len(),
        expr_read_at(s, old, e),
    ensures
        expr_read_at(s, new, e),
{
    let i = old[e as int]->Expr_1.start as int;
    let b = choose|b: NodeRef| #![trigger old[b as int]]
        b <= e && is_expr(old, b as int)
        && base_read(s, i, old[b as int]->Expr_1.end as int, old[b as int]->Expr_0)
        && base_choice(s, i, old[b as int]->Expr_0)
        && assign_chain(old, e, b);
    assert(new[e as int] == old[e as int]);
    assert(new[b as int] == old[b as int]);
    lemma_chain_extends(new, old, e, b);
}

/// Chains keep their shape when nodes are added.
proof fn lemma_chain_extends(new: Seq<Node>, old: Seq<Node>, e: NodeRef, base: NodeRef)
    requires
        old.len() <= new.len(),
        forall|i: int| 0 <= i < old.len() ==> #[trigger] new[i] == old[i],
        e < old.len(),
    ensures
        access_chain(new, e, base) == access_chain(old, e, base),
        assign_chain(new, e, base) == assign_chain(old, e, base),
    decreases e,
{
    assert(new[e as int] == old[e as int]);
    if base < e {
        match old[e as int] {
            Node::Expr(Expr::FunctionCall { func, .. }, _) => {
                if func < e {
                    lemma_chain_extends(new, old, func, base);
                }
            },
            Node::Expr(Expr::UnresolvedMemberAccess { object: Some(o), .. }, _) => {
                if o < e {
                    lemma_chain_extends(new, old, o, base);
                }
            },
            Node::Expr(Expr::TupleAccess { tuple_expr, .. }, _) => {
                if tuple_expr < e {
                    lemma_chain_extends(new, old, tuple_expr, base);
                }
            },
            Node::Expr(Expr::Assignment { lhs, .. }, _) => {
                if lhs < e {
                    lemma_chain_extends(new, old, lhs, base);
                }
            },
            _ => {},
        }
    }
}

/// A `.` stands at the first position at or after `j` that holds no
/// whitespace.
pub open spec fn dot_at(s: Seq<char>, j: int) -> bool {
    ws_end(s, j) < s.len() && s[ws_end(s, j)] == '.'
}

/// Where what follows a `.` after `j` starts.
pub open spec fn after_dot(s: Seq<char>, j: int) -> int {
    ws_end(s, ws_end(s, j) + 1)
}

/// The expressions `v` are those written in round brackets at `j`.
pub open spec fn args_read(s: Seq<char>, nodes: Seq<Node>, v: Seq<NodeRef>, j: int) -> bool {
    super::exprs_valid(nodes, v) && expr_spans_of(nodes, v) == g_arg_spans(s, j)
}

/// The link `e` of a chain was read from the source after the expression
/// it is on, which ends at `j`: the arguments of a call; the member name
/// after the `.` and its arguments, if any; the number of a tuple access.
pub open spec fn link_read(s: Seq<char>, nodes: Seq<Node>, e: NodeRef, j: int) -> bool {
    match nodes[e as int] {
        Node::Expr(Expr::FunctionCall { params, .. }, _) => args_read(s, nodes, params@, j),
        Node::Expr(Expr::UnresolvedMemberAccess { member_name, items, .. }, _) => {
            &&& dot_at(s, j)
            &&& spec_identifier(s, after_dot(s, j)) matches Some((a, b, k))
            &&& member_name.name@ == s.subrange(a, b)
            &&& match items {
                Some(v) => args_read(s, nodes, v@, k),
                None => g_args(s, k) is None,
            }
        },
        Node::Expr(Expr::TupleAccess { attr, .. }, _) => dot_at(s, j)
            && attr == decimal_value(s, after_dot(s, j), digits_end(s, after_dot(s, j))),
        _ => false,
    }
}

/// The chain `e` from `base` was read from the source link by link, each
/// link after the expression it is on; an assignment's target likewise.
pub open spec fn chain_read(s: Seq<char>, nodes: Seq<Node>, e: NodeRef, base: NodeRef) -> bool
    decreases e,
{
    e == base || (base < e && match nodes[e as int] {
        Node::Expr(Expr::FunctionCall { func: x, .. }, _) => x < e && chain_read(s, nodes, x, base)
            && link_read(s, nodes, e, nodes[x as int]->Expr_1.end as int),
        Node::Expr(Expr::UnresolvedMemberAccess { object: Some(x), .. }, _) => x < e && chain_read(s, nodes, x, base)
            && link_read(s, nodes, e, nodes[x as int]->Expr_1.end as int),
        Node::Expr(Expr::TupleAccess { tuple_expr: x, .. }, _) => x < e && chain_read(s, nodes, x, base)
            && link_read(s, nodes, e, nodes[x as int]->Expr_1.end as int),
        Node::Expr(Expr::Assignment { lhs: x, .. }, _) => x < e && chain_read(s, nodes, x, base),
        _ => false,
    })
}

/// Links stay read when nodes are added.
proof fn lemma_link_read_extends(s: Seq<char>, new: Seq<Node>, old: Seq<Node>, e: NodeRef, j: int)
    requires
        old.len() <= new.len(),
        forall|i: int| 0 <= i < old.len() ==> #[trigger] new[i] == old[i],
        e < old.len(),
        link_read(s, old, e, j),
    ensures
        link_read(s, new, e, j),
{
    assert(new[e as int] == old[e as int]);
    match old[e as int] {
        Node::Expr(Expr::FunctionCall { params, .. }, _) => {
            assert(expr_spans_of(new, params@) =~= expr_spans_of(old, params@));
        },
        Node::Expr(Expr::UnresolvedMemberAccess { items: Some(v), .. }, _) => {
            assert(expr_spans_of(new, v@) =~= expr_spans_of(old, v@));
        },
        _ => {},
    }
}

/// Chains stay read when nodes are added.
proof fn lemma_chain_read_extends(s: Seq<char>, new: Seq<Node>, old: Seq<Node>, e: NodeRef, base: NodeRef)
    requires
        old.len() <= new.len(),
        forall|i: int| 0 <= i < old.len() ==> #[trigger] new[i] == old[i],
        e < old.len(),
        chain_read(s, old, e, base),
    ensures
        chain_read(s, new, e, base),
    decreases e,
{
    assert(new[e as int] == old[e as int]);
    if e != base {
        match old[e as int] {
            Node::Expr(Expr::FunctionCall { func: x, .. }, _) => {
                lemma_chain_read_extends(s, new, old, x, base);
                lemma_link_read_extends(s, new, old, e, old[x as int]->Expr_1.end as int);
                assert(new[x as int] == old[x as int]);
            },
            Node::Expr(Expr::UnresolvedMemberAccess { object: Some(x), .. }, _) => {
                lemma_chain_read_extends(s, new, old, x, base);
                lemma_link_read_extends(s, new, old, e, old[x as int]->Expr_1.end as int);
                assert(new[x as int] == old[x as int]);
            },
            Node::Expr(Expr::TupleAccess { tuple_expr: x, .. }, _) => {
                lemma_chain_read_extends(s, new, old, x, base);
                lemma_link_read_extends(s, new, old, e, old[x as int]->Expr_1.end as int);
                assert(new[x as int] == old[x as int]);
            },
            Node::Expr(Expr::Assignment { lhs: x, .. }, _) => {
                lemma_chain_read_extends(s, new, old, x, base);
            },
            _ => {},
        }
    }
}

/// The spans of the expressions `v`.
pub open spec fn expr_spans_of(nodes: Seq<Node>, v: Seq<NodeRef>) -> Seq<(int, int)> {
    Seq::new(v.len(), |k: int| (nodes[v[k] as int]->Expr_1.start as int, nodes[v[k] as int]->Expr_1.end as int))
}

/// The expressions `v` were read one after the other, after `i` and up to
/// `j`: each ends before the next starts.
pub open spec fn exprs_in_order(nodes: Seq<Node>, v: Seq<NodeRef>, i: int, j: int) -> bool {
    &&& forall|k: int| 0 <= k < v.len() ==> i < (#[trigger] nodes[v[k] as int])->Expr_1.start
        < nodes[v[k] as int]->Expr_1.end <= j
    &&& forall|k: int| 0 < k < v.len() ==> nodes[v[k - 1] as int]->Expr_1.end < (#[trigger] nodes[v[k] as int])->Expr_1.start
}

impl ParserContext {
    /// Reads a run of digits, at least one.
    fn digits(&self, i: usize) -> (r: Res<()>)
        requires
            self.wf(),
            i <= self.source@.len(),
        ensures
            r is Ok <==> (i < self.source@.len() && is_digit(self.source@[i as int])),
            r matches Ok((j, _)) ==> j == digits_end(self.source@, i as int) && i < j <= self.source@.len()
                && forall|k: int| i <= k < j ==> is_digit(#[trigger] self.source@[k]),
    {
        proof {
            lemma_digits_end(self.source@, i as int);
        }
        let mut j = i;
        while j < self.source.len() && '0' <= self.source[j] && self.source[j] <= '9'
            invariant
                i <= j <= self.source@.len(),
                digits_end(self.source@, i as int) == digits_end(self.source@, j as int),
            decreases self.source@.len() - j,
        {
            j = j + 1;
        }
        if j == i {
            Err(ParserError { offset: i, kind: ParserErrorKind::Literal })
        } else {
            Ok((j, ()))
        }
    }

    /// The characters `i..j` of the source.
    pub fn text(&self, i: usize, j: usize) -> (r: Vec<char>)
        requires
            i <= j <= self.source@.len(),
        ensures
            r@ == self.source@.subrange(i as int, j as int),
    {
        let mut r: Vec<char> = Vec::new();
        let mut k = i;
        while k < j
            invariant
                i <= k <= j <= self.source@.len(),
                r@ == self.source@.subrange(i as int, k as int),
            decreases j - k,
        {
            r.push(self.source[k]);
            k = k + 1;
            assert(r@ =~= self.source@.subrange(i as int, k as int));
        }
        r
    }

    /// `"..."`: the characters up to the next double quote.
    pub fn expr_string_literal(&self, i: usize) -> (r: Res<Expr>)
        requires
            self.wf(),
            i <= self.source@.len(),
        ensures
            r matches Ok((j, e)) ==> {
                &&& i < j <= self.source@.len()
                &&& self.source@[i as int] == '"'
                &&& self.source@[j - 1] == '"'
                &&& e matches Expr::StringLiteral(v) && v@ == self.source@.subrange(i + 1, j - 1)
                &&& forall|k: int| i + 1 <= k < j - 1 ==> self.source@[k] != '"'
            },
            (i < self.source@.len() && self.source@[i as int] == '"'
                && exists|k: int| i < k < self.source@.len() && self.source@[k] == '"') ==> r is Ok,
            r matches Ok((j, _)) ==> g_string(self.source@, i as int) == Some(j as int),
            r is Err ==> g_string(self.source@, i as int) is None,
    {
        let (a, _) = self.char_tag(i, '"')?;
        let mut b = a;
        while b < self.source.len() && self.source[b] != '"'
            invariant
                self.wf(),
                a == i + 1,
                a <= b <= self.source@.len(),
                self.source@[i as int] == '"',
                forall|k: int| a <= k < b ==> self.source@[k] != '"',
                quote_at(self.source@, a as int) == quote_at(self.source@, b as int),
            decreases self.source@.len() - b,
        {
            b = b + 1;
        }
        if b >= self.source.len() {
            return Err(ParserError { offset: i, kind: ParserErrorKind::Literal });
        }
        let content = self.text(a, b);
        Ok((b + 1, Expr::StringLiteral(content)))
    }

    /// A number: digits, then optionally a point and optionally more digits.
    pub fn expr_number_literal(&self, i: usize) -> (r: Res<Expr>)
        requires
            self.wf(),
            i <= self.source@.len(),
        ensures
            r is Ok <==> (i < self.source@.len() && is_digit(self.source@[i as int])),
            r matches Ok((j, _)) ==> g_number(self.source@, i as int) == Some(j as int),
            r is Err ==> g_number(self.source@, i as int) is None,
            r matches Ok((j, e)) ==> {
                &&& j == number_end(self.source@, i as int)
                &&& i < j <= self.source@.len()
                &&& e matches Expr::NumberLiteral(v) && v@ == self.source@.subrange(i as int, j as int)
            },
    {
        let (a, _) = self.digits(i)?;
        let j = match self.char_tag(a, '.') {
            Ok((b, _)) => match self.digits(b) {
                Ok((c, _)) => c,
                Err(_) => {
                    proof {
                        lemma_digits_end(self.source@, b as int);
                    }
                    b
                },
            },
            Err(_) => a,
        };
        Ok((j, Expr::NumberLiteral(self.text(i, j))))
    }

    /// `true` or `false`.
    pub fn expr_boolean_literal(&self, i: usize) -> (r: Res<Expr>)
        requires
            self.wf(),
            i <= self.source@.len(),
        ensures
            r matches Ok((j, e)) ==> {
                &&& i < j <= self.source@.len()
                &&& e matches Expr::BoolLiteral(b) && (if b {
                    self.source@.subrange(i as int, j as int) == seq!['t', 'r', 'u', 'e']
                } else {
                    self.source@.subrange(i as int, j as int) == seq!['f', 'a', 'l', 's', 'e']
                })
            },
            r matches Ok((j, _)) ==> g_bool(self.source@, i as int) == Some(j as int),
            r is Err ==> g_bool(self.source@, i as int) is None,
    {
        let t = vec!['t', 'r', 'u', 'e'];
        assert(t@ =~= seq!['t', 'r', 'u', 'e']);
        match self.tag(i, &t) {
            Ok((j, _)) => Ok((j, Expr::BoolLiteral(true))),
            Err(_) => {
                let f = vec!['f', 'a', 'l', 's', 'e'];
                assert(f@ =~= seq!['f', 'a', 'l', 's', 'e']);
                let (j, _) = self.tag(i, &f)?;
                Ok((j, Expr::BoolLiteral(false)))
            },
        }
    }

    /// `( EXPR, ... )`: a comma separated list of expressions in round brackets.
    pub fn expr_args(&self, ctx: &mut IrCtx, i: usize) -> (r: Res<Vec<NodeRef>>)
        requires
            parse_pre(self, old(ctx), i),
        ensures
            parse_post(final(ctx), old(ctx)),
            r matches Ok((j, v)) ==> i < j <= self.source@.len() && exprs_valid(final(ctx).nodes@, v@)
                && exprs_in_order(final(ctx).nodes@, v@, i as int, j as int),
            reads(final(ctx), r, g_args(self.source@, i as int)),
            r matches Ok((_, v)) ==> expr_spans_of(final(ctx).nodes@, v@) == g_arg_spans(self.source@, i as int),
        decreases self.source@.len() - i, 1nat,
    {
        let (mut j, _) = self.spaced_char(i, '(')?;
        let mut items: Vec<NodeRef> = Vec::new();
        match self.expression(ctx, j) {
            Ok((k, e)) => {
                items.push(e);
                j = k;
                let ghost k0 = k;
                let ghost j0 = ws_end(self.source@, ws_end(self.source@, i as int) + 1);
                assert(expr_spans_of(ctx.nodes@, items@) =~= seq![(j0, k as int)]);
                loop
                    invariant
                        parse_pre(self, ctx, j),
                        parse_post(ctx, old(ctx)),
                        i < j,
                        exprs_valid(ctx.nodes@, items@),
                        items@.len() > 0,
                        exprs_in_order(ctx.nodes@, items@, i as int, j as int),
                        ctx.nodes@[items@.last() as int]->Expr_1.end == j,
                        g_args_rest(self.source@, k0 as int) == g_args_rest(self.source@, j as int),
                        g_arg_spans(self.source@, i as int) == expr_spans_of(ctx.nodes@, items@) + g_arg_spans_rest(
                            self.source@,
                            j as int,
                        ),
                    ensures
                        parse_pre(self, ctx, j),
                        parse_post(ctx, old(ctx)),
                        i < j,
                        exprs_valid(ctx.nodes@, items@),
                        exprs_in_order(ctx.nodes@, items@, i as int, j as int),
                        g_args_rest(self.source@, k0 as int) == j,
                        g_arg_spans(self.source@, i as int) == expr_spans_of(ctx.nodes@, items@),
                    decreases self.source@.len() - j,
                {
                    let k = match self.spaced_char(j, ',') {
                        Ok((k, _)) => k,
                        Err(_) => {
                            assert(expr_spans_of(ctx.nodes@, items@) + g_arg_spans_rest(self.source@, j as int)
                                =~= expr_spans_of(ctx.nodes@, items@));
                            break;
                        },
                    };
                    let ghost c1 = *ctx;
                    let ghost it1 = items@;
                    match self.expression(ctx, k) {
                        Ok((m, e)) => {
                            proof {
                                assert forall|a: int| 0 <= a < items@.len() implies ctx.nodes@[#[trigger] items@[a] as int]
                                    == c1.nodes@[items@[a] as int] by {
                                    assert(is_expr(c1.nodes@, items@[a] as int));
                                }
                                assert(expr_spans_of(ctx.nodes@, it1) =~= expr_spans_of(c1.nodes@, it1));
                            }
                            items.push(e);
                            proof {
                                assert(expr_spans_of(ctx.nodes@, items@) =~= expr_spans_of(ctx.nodes@, it1).push(
                                    (k as int, m as int),
                                ));
                                assert(g_arg_spans_rest(self.source@, j as int) == seq![(k as int, m as int)]
                                    + g_arg_spans_rest(self.source@, m as int));
                                assert(expr_spans_of(ctx.nodes@, it1) + g_arg_spans_rest(self.source@, j as int)
                                    =~= expr_spans_of(ctx.nodes@, items@) + g_arg_spans_rest(self.source@, m as int));
                            }
                            j = m;
                        },
                        Err(e) => {
                            proof {
                                assert forall|a: int| 0 <= a < it1.len() implies ctx.nodes@[#[trigger] it1[a] as int]
                                    == c1.nodes@[it1[a] as int] by {
                                    assert(is_expr(c1.nodes@, it1[a] as int));
                                }
                                assert(expr_spans_of(ctx.nodes@, it1) =~= expr_spans_of(c1.nodes@, it1));
                                assert(expr_spans_of(ctx.nodes@, items@) + g_arg_spans_rest(self.source@, j as int)
                                    =~= expr_spans_of(ctx.nodes@, items@));
                            }
                            break;
                        },
                    }
                }
            },
            Err(_) => {
                assert(expr_spans_of(ctx.nodes@, items@) =~= g_arg_spans(self.source@, i as int));
            },
        }
        let a = self.ws0(j);
        let (b, _) = self.char_tag(a, ')')?;
        Ok((b, items))
    }

    /// `( EXPR, ... )`: a tuple.
    pub fn expr_tuple(&self, ctx: &mut IrCtx, i: usize) -> (r: Res<Expr>)
        requires
            parse_pre(self, old(ctx), i),
        ensures
            parse_post(final(ctx), old(ctx)),
            r matches Ok((j, e)) ==> i < j <= self.source@.len() && expr_value_valid(final(ctx), e) && e is Tuple,
            reads(final(ctx), r, g_args(self.source@, i as int)),
            r matches Ok((_, e)) ==> e matches Expr::Tuple(v) && expr_spans_of(final(ctx).nodes@, v@) == g_arg_spans(
                self.source@,
                i as int,
            ),
        decreases self.source@.len() - i, 2nat,
    {
        let (j, values) = self.expr_args(ctx, i)?;
        Ok((j, Expr::Tuple(values)))
    }

    /// An expression: a base expression followed by calls, member accesses,
    /// tuple accesses and assignments.
    pub fn expression(&self, ctx: &mut IrCtx, i: usize) -> (r: Res<NodeRef>)
        requires
            parse_pre(self, old(ctx), i),
        ensures
            parse_post(final(ctx), old(ctx)),
            r matches Ok((j, e)) ==> i < j <= self.source@.len() && is_expr(final(ctx).nodes@, e as int)
                && final(ctx).nodes@[e as int]->Expr_1.start == i && final(ctx).nodes@[e as int]->Expr_1.end == j
                && exists|b: NodeRef| #![trigger final(ctx).nodes@[b as int]]
                    old(ctx).nodes@.len() <= b <= e && is_expr(final(ctx).nodes@, b as int)
                    && base_read(self.source@, i as int, final(ctx).nodes@[b as int]->Expr_1.end as int,
                        final(ctx).nodes@[b as int]->Expr_0)
                    && base_choice(self.source@, i as int, final(ctx).nodes@[b as int]->Expr_0)
                    && assign_chain(final(ctx).nodes@, e, b),
            reads(final(ctx), r, g_expr(self.source@, i as int)),
        decreases self.source@.len() - i, 7nat,
    {
        let (j, value) = self.expr_base(ctx, i)?;
        let span = self.span(i, j);
        let e = ctx.add_node(Node::Expr(value, span));
        let ghost c = *ctx;
        let r = self.expr_tail_chain(ctx, e, i, j);
        proof {
            if let Ok((k, f)) = r {
                assert(ctx.nodes@[e as int] == c.nodes@[e as int]);
            }
        }
        r
    }

    fn alloc_expr(&self, ctx: &mut IrCtx, value: Expr, start: usize, end: usize) -> (r: NodeRef)
        requires
            self.wf(),
            old(ctx).wf(),
            start <= end <= self.source@.len(),
            expr_value_valid(old(ctx), value),
        ensures
            parse_post(final(ctx), old(ctx)),
            is_expr(final(ctx).nodes@, r as int),
            final(ctx).nodes@.len() == old(ctx).nodes@.len() + 1,
            r == old(ctx).nodes@.len(),
            final(ctx).nodes@[r as int]->Expr_0 == value,
            final(ctx).nodes@[r as int]->Expr_1.start == start,
            final(ctx).nodes@[r as int]->Expr_1.end == end,
    {
        let span = self.span(start, end);
        ctx.add_node(Node::Expr(value, span))
    }

    /// The calls, member accesses and tuple accesses after an expression,
    /// then its assignments.
    fn expr_tail_chain(&self, ctx: &mut IrCtx, base: NodeRef, start: usize, i: usize) -> (r: Res<NodeRef>)
        requires
            parse_pre(self, old(ctx), i),
            start <= i,
            is_expr(old(ctx).nodes@, base as int),
            old(ctx).nodes@[base as int]->Expr_1.start == start,
            old(ctx).nodes@[base as int]->Expr_1.end == i,
        ensures
            parse_post(final(ctx), old(ctx)),
            r matches Ok((j, e)) ==> i <= j <= self.source@.len() && is_expr(final(ctx).nodes@, e as int)
                && final(ctx).nodes@[e as int]->Expr_1.start == start && final(ctx).nodes@[e as int]->Expr_1.end == j
                && assign_chain(final(ctx).nodes@, e, base)
                && chain_read(self.source@, final(ctx).nodes@, e, base),
            reads(final(ctx), r, g_tail(self.source@, i as int)),
        decreases self.source@.len() - i, 2nat,
    {
        let mut acc = base;
        let mut j = i;
        loop
            invariant
                parse_pre(self, ctx, j),
                parse_post(ctx, old(ctx)),
                start <= i <= j,
                is_expr(ctx.nodes@, acc as int),
                ctx.nodes@[acc as int]->Expr_1.start == start,
                ctx.nodes@[acc as int]->Expr_1.end == j,
                access_chain(ctx.nodes@, acc, base),
                chain_read(self.source@, ctx.nodes@, acc, base),
                base <= acc,
                g_tail(self.source@, i as int) == g_tail(self.source@, j as int),
            ensures
                parse_pre(self, ctx, j),
                parse_post(ctx, old(ctx)),
                start <= i <= j,
                is_expr(ctx.nodes@, acc as int),
                ctx.nodes@[acc as int]->Expr_1.start == start,
                ctx.nodes@[acc as int]->Expr_1.end == j,
                access_chain(ctx.nodes@, acc, base),
                chain_read(self.source@, ctx.nodes@, acc, base),
                base <= acc,
                g_tail(self.source@, i as int) == Some(g_assign(self.source@, j as int)),
            decreases self.source@.len() - j,
        {
            let ghost c1 = *ctx;
            match self.expr_args(ctx, j) {
                Ok((k, params)) => {
                    proof {
                        lemma_chain_extends(ctx.nodes@, c1.nodes@, acc, base);
                        lemma_chain_read_extends(self.source@, ctx.nodes@, c1.nodes@, acc, base);
                    }
                    let ghost c2 = *ctx;
                    let ghost prev = acc;
                    let ghost pv = params@;
                    acc = self.alloc_expr(ctx, Expr::FunctionCall { func: acc, params }, start, k);
                    proof {
                        lemma_chain_extends(ctx.nodes@, c2.nodes@, prev, base);
                        lemma_chain_read_extends(self.source@, ctx.nodes@, c2.nodes@, prev, base);
                        assert(expr_spans_of(ctx.nodes@, pv) =~= expr_spans_of(c2.nodes@, pv));
                        assert(ctx.nodes@[prev as int] == c2.nodes@[prev as int]);
                        assert(link_read(self.source@, ctx.nodes@, acc, j as int));
                    }
                    j = k;
                },
                Err(e) => {
                    proof {
                        lemma_chain_extends(ctx.nodes@, c1.nodes@, acc, base);
                        lemma_chain_read_extends(self.source@, ctx.nodes@, c1.nodes@, acc, base);
                    }
                    let dot = match self.spaced_char(j, '.') {
                        Ok((d, _)) => d,
                        Err(_) => break,
                    };
                    match self.identifier(dot) {
                        Ok((k, member_name)) => {
                            let (k2, items) = match self.expr_args(ctx, k) {
                                Ok((k2, items)) => (k2, Some(items)),
                                Err(_) => {
                                    (k, None)
                                },
                            };
                            let type_sig = ctx.new_type_var();
                            proof {
                                lemma_chain_extends(ctx.nodes@, c1.nodes@, acc, base);
                                lemma_chain_read_extends(self.source@, ctx.nodes@, c1.nodes@, acc, base);
                            }
                            let ghost c2 = *ctx;
                            let ghost prev = acc;
                            let ghost iv = items;
                            acc = self.alloc_expr(
                                ctx,
                                Expr::UnresolvedMemberAccess { object: Some(acc), member_name, items, type_sig },
                                start,
                                k2,
                            );
                            proof {
                                lemma_chain_extends(ctx.nodes@, c2.nodes@, prev, base);
                                lemma_chain_read_extends(self.source@, ctx.nodes@, c2.nodes@, prev, base);
                                if let Some(v) = iv {
                                    assert(expr_spans_of(ctx.nodes@, v@) =~= expr_spans_of(c2.nodes@, v@));
                                }
                                assert(ctx.nodes@[prev as int] == c2.nodes@[prev as int]);
                                assert(link_read(self.source@, ctx.nodes@, acc, j as int));
                            }
                            j = k2;
                        },
                        Err(_) => {
                            match self.digits(dot) {
                                Ok((k, _)) => {
                                    let attr = match self.parse_usize(dot, k) {
                                        Some(n) => n,
                                        None => {
                                            return Err(ParserError { offset: dot, kind: ParserErrorKind::Literal });
                                        },
                                    };
                                    let ghost c2 = *ctx;
                                    let ghost prev = acc;
                                    acc = self.alloc_expr(ctx, Expr::TupleAccess { tuple_expr: acc, attr }, start, k);
                                    proof {
                                        lemma_chain_extends(ctx.nodes@, c2.nodes@, prev, base);
                                        lemma_chain_read_extends(self.source@, ctx.nodes@, c2.nodes@, prev, base);
                                        assert(ctx.nodes@[prev as int] == c2.nodes@[prev as int]);
                                        assert(link_read(self.source@, ctx.nodes@, acc, j as int));
                                    }
                                    j = k;
                                },
                                Err(_) => break,
                            }
                        },
                    }
                },
            }
        }
        let ghost j1 = j;
        loop
            invariant
                parse_pre(self, ctx, j),
                parse_post(ctx, old(ctx)),
                start <= i <= j,
                is_expr(ctx.nodes@, acc as int),
                ctx.nodes@[acc as int]->Expr_1.start == start,
                ctx.nodes@[acc as int]->Expr_1.end == j,
                assign_chain(ctx.nodes@, acc, base),
                chain_read(self.source@, ctx.nodes@, acc, base),
                base <= acc,
                g_tail(self.source@, i as int) == Some(g_assign(self.source@, j1 as int)),
                g_assign(self.source@, j1 as int) == g_assign(self.source@, j as int),
            ensures
                parse_pre(self, ctx, j),
                parse_post(ctx, old(ctx)),
                start <= i <= j,
                is_expr(ctx.nodes@, acc as int),
                ctx.nodes@[acc as int]->Expr_1.start == start,
                ctx.nodes@[acc as int]->Expr_1.end == j,
                assign_chain(ctx.nodes@, acc, base),
                chain_read(self.source@, ctx.nodes@, acc, base),
                base <= acc,
                g_tail(self.source@, i as int) == Some(j as int),
            decreases self.source@.len() - j,
        {
            let k = match self.spaced_char(j, '=') {
                Ok((k, _)) => k,
                Err(_) => break,
            };
            let ghost c1 = *ctx;
            match self.expression(ctx, k) {
                Ok((m, rhs)) => {
                    proof {
                        lemma_chain_extends(ctx.nodes@, c1.nodes@, acc, base);
                        lemma_chain_read_extends(self.source@, ctx.nodes@, c1.nodes@, acc, base);
                    }
                    let ghost c2 = *ctx;
                    let ghost prev = acc;
                    acc = self.alloc_expr(ctx, Expr::Assignment { lhs: acc, rhs }, start, m);
                    proof {
                        lemma_chain_extends(ctx.nodes@, c2.nodes@, prev, base);
                        lemma_chain_read_extends(self.source@, ctx.nodes@, c2.nodes@, prev, base);
                        assert(assign_chain(ctx.nodes@, prev, base));
                    }
                    j = m;
                },
                Err(_) => {
                    proof {
                        lemma_chain_extends(ctx.nodes@, c1.nodes@, acc, base);
                        lemma_chain_read_extends(self.source@, ctx.nodes@, c1.nodes@, acc, base);
                    }
                    break;
                },
            }
        }
        Ok((j, acc))
    }

    /// The number written with the digits `i..j`, if it fits.
    fn parse_usize(&self, i: usize, j: usize) -> (r: Option<usize>)
        requires
            i <= j <= self.source@.len(),
            forall|k: int| i <= k < j ==> is_digit(self.source@[k]),
        ensures
            r is Some <==> decimal_value(self.source@, i as int, j as int) <= usize::MAX,
            r matches Some(n) ==> n == decimal_value(self.source@, i as int, j as int),
    {
        let mut n: usize = 0;
        let mut k = i;
        proof { lemma_decimal_value_grows(self.source@, i as int, j as int); }
        while k < j
            invariant
                i <= k <= j <= self.source@.len(),
                forall|m: int| i <= m < j ==> is_digit(self.source@[m]),
                n == decimal_value(self.source@, i as int, k as int),
                forall|a: int, b: int| i <= a <= b <= j ==> decimal_value(self.source@, i as int, a) <= decimal_value(
                    self.source@, i as int, b),
            decreases j - k,
        {
            let c = self.source[k];
            let d: usize = if c == '0' { 0 } else if c == '1' { 1 } else if c == '2' { 2 } else if c == '3' { 3 }
                else if c == '4' { 4 } else if c == '5' { 5 } else if c == '6' { 6 } else if c == '7' { 7 }
                else if c == '8' { 8 } else { 9 };
            assert(d == digit_value(c));
            assert(decimal_value(self.source@, i as int, k + 1) == n * 10 + d);
            if n > (usize::MAX - d) / 10 {
                assert(n * 10 + d > usize::MAX) by (nonlinear_arith)
                    requires
                        n > (usize::MAX - d) / 10,
                        d <= 9,
                ;
                assert(decimal_value(self.source@, i as int, k + 1) <= decimal_value(self.source@, i as int, j as int));
                return None;
            }
            assert(n * 10 + d <= usize::MAX) by (nonlinear_arith)
                requires
                    n <= (usize::MAX - d) / 10,
                    d <= 9,
            ;
            n = n * 10 + d;
            k = k + 1;
        }
        Some(n)
    }

    /// The base of an expression, tried in this order: a struct
    /// initialization, an identifier, a member access without object, a
    /// string, a number, a boolean, a function expression, a tuple, an
    /// escape block.
    fn expr_base(&self, ctx: &mut IrCtx, i: usize) -> (r: Res<Expr>)
        requires
            parse_pre(self, old(ctx), i),
        ensures
            parse_post(final(ctx), old(ctx)),
            r matches Ok((j, e)) ==> i < j <= self.source@.len() && expr_value_valid(final(ctx), e)
                && base_read(self.source@, i as int, j as int, e),
            reads(final(ctx), r, g_base(self.source@, i as int)),
            r matches Ok((_, e)) ==> base_choice(self.source@, i as int, e),
        decreases self.source@.len() - i, 6nat,
    {
        match self.struct_init_expr(ctx, i) {
            Ok(x) => { return Ok(x); },
            Err(_) => {},
        }
        if let Ok((j, id)) = self.identifier(i) {
            return Ok((j, Expr::Identifier(id)));
        }
        match self.expr_anon_member_access(ctx, i) {
            Ok(x) => { return Ok(x); },
            Err(_) => {},
        }
        if let Ok(x) = self.expr_string_literal(i) {
            return Ok(x);
        }
        if let Ok(x) = self.expr_number_literal(i) {
            return Ok(x);
        }
        if let Ok(x) = self.expr_boolean_literal(i) {
            return Ok(x);
        }
        match self.function_expr(ctx, i) {
            Ok((j, f)) => { return Ok((j, Expr::Function(f))); },
            Err(_) => {},
        }
        match self.expr_tuple(ctx, i) {
            Ok(x) => { return Ok(x); },
            Err(_) => {},
        }
        match self.escape_block(ctx, i) {
            Ok(x) => Ok(x),
            Err(e) => {
                Err(ParserError { offset: e.offset, kind: ParserErrorKind::Expression })
            },
        }
    }

    /// `NAME { ATTR: EXPR, ... }`.
    pub fn struct_init_expr(&self, ctx: &mut IrCtx, i: usize) -> (r: Res<Expr>)
        requires
            parse_pre(self, old(ctx), i),
        ensures
            parse_post(final(ctx), old(ctx)),
            r matches Ok((j, e)) ==> {
                &&& i < j <= self.source@.len()
                &&& expr_value_valid(final(ctx), e)
                &&& e is StructInit
                &&& spec_identifier(self.source@, i as int) matches Some((x, y, _))
                &&& e->StructInit_struct_name.name@ == self.source@.subrange(x, y)
            },
            reads(final(ctx), r, g_struct_init(self.source@, i as int)),
        decreases self.source@.len() - i, 5nat,
    {
        let (a, struct_name) = self.identifier(i)?;
        let (mut j, _) = self.spaced_char(a, '{')?;
        let mut values: Vec<StructInitValue> = Vec::new();
        match self.struct_init_value(ctx, j) {
            Ok((k, v)) => {
                values.push(v);
                j = k;
                let ghost k0 = k;
                loop
                    invariant
                        parse_pre(self, ctx, j),
                        parse_post(ctx, old(ctx)),
                        i < j,
                        forall|m: int| 0 <= m < values@.len() ==> is_expr(ctx.nodes@, (#[trigger] values@[m]).value as int),
                        g_init_values_rest(self.source@, k0 as int) == g_init_values_rest(self.source@, j as int),
                    ensures
                        parse_pre(self, ctx, j),
                        parse_post(ctx, old(ctx)),
                        i < j,
                        forall|m: int| 0 <= m < values@.len() ==> is_expr(ctx.nodes@, (#[trigger] values@[m]).value as int),
                        g_init_values_rest(self.source@, k0 as int) == j,
                    decreases self.source@.len() - j,
                {
                    let k = match self.spaced_char(j, ',') {
                        Ok((k, _)) => k,
                        Err(_) => break,
                    };
                    match self.struct_init_value(ctx, k) {
                        Ok((m, v)) => {
                            values.push(v);
                            j = m;
                        },
                        Err(_) => {
                            break;
                        },
                    }
                }
            },
            Err(_) => {},
        }
        let b = self.ws0(j);
        let (c, _) = self.char_tag(b, '}')?;
        Ok((c, Expr::StructInit { struct_name, values }))
    }

    /// `ATTR: EXPR`.
    fn struct_init_value(&self, ctx: &mut IrCtx, i: usize) -> (r: Res<StructInitValue>)
        requires
            parse_pre(self, old(ctx), i),
        ensures
            parse_post(final(ctx), old(ctx)),
            r matches Ok((j, v)) ==> {
                &&& i < j <= self.source@.len()
                &&& is_expr(final(ctx).nodes@, v.value as int)
                &&& spec_identifier(self.source@, i as int) matches Some((x, y, _))
                &&& v.name.name@ == self.source@.subrange(x, y)
            },
            reads(final(ctx), r, g_init_value(self.source@, i as int)),
        decreases self.source@.len() - i, 4nat,
    {
        let (a, name) = self.identifier(i)?;
        let (b, _) = self.spaced_char(a, ':')?;
        let (c, value) = self.expression(ctx, b)?;
        Ok((c, StructInitValue { name, value }))
    }

    /// `.MEMBER` or `.MEMBER(EXPR, ...)`: a member access whose object is
    /// known only from the expected type.
    pub fn expr_anon_member_access(&self, ctx: &mut IrCtx, i: usize) -> (r: Res<Expr>)
        requires
            parse_pre(self, old(ctx), i),
        ensures
            parse_post(final(ctx), old(ctx)),
            r matches Ok((j, e)) ==> {
                &&& i < j <= self.source@.len()
                &&& expr_value_valid(final(ctx), e)
                &&& e matches Expr::UnresolvedMemberAccess { object: None, .. }
                &&& spec_spaced_char(self.source@, i as int, '.') matches Some(a)
                &&& spec_identifier(self.source@, a) matches Some((x, y, _))
                &&& e->UnresolvedMemberAccess_member_name.name@ == self.source@.subrange(x, y)
            },
            reads(final(ctx), r, g_anon_member(self.source@, i as int)),
        decreases self.source@.len() - i, 5nat,
    {
        let (a, _) = self.spaced_char(i, '.')?;
        let (b, member_name) = self.identifier(a)?;
        let (c, items) = match self.expr_args(ctx, b) {
            Ok((c, items)) => (c, Some(items)),
            Err(_) => {
                (b, None)
            },
        };
        let type_sig = ctx.new_type_var();
        Ok((c, Expr::UnresolvedMemberAccess { object: None, member_name, items, type_sig }))
    }

    /// `@{ CODE }` or `@TYPE{ CODE }`: code of the target language, whose
    /// braces must balance; without a type it is untyped.
    pub fn escape_block(&self, ctx: &mut IrCtx, i: usize) -> (r: Res<Expr>)
        requires
            parse_pre(self, old(ctx), i),
        ensures
            parse_post(final(ctx), old(ctx)),
            r matches Ok((j, e)) ==> i < j <= self.source@.len() && expr_value_valid(final(ctx), e)
                && e is EscapeBlock,
            reads(final(ctx), r, g_escape(self.source@, i as int)),
        decreases self.source@.len() - i, 5nat,
    {
        let (a, _) = self.spaced_char(i, '@')?;
        let (b, type_sig) = match self.type_signature(ctx, a) {
            Ok((b, (t, _))) => (b, t),
            Err(_) => (a, ctx.new_type_var()),
        };
        let (c, _) = self.spaced_char(b, '{')?;
        let d = self.escape_block_content(c);
        let e = self.ws0(d);
        let (f, _) = self.char_tag(e, '}')?;
        let content = self.trimmed_text(c, d);
        Ok((f, Expr::EscapeBlock { content, type_sig }))
    }

    /// The end of code whose braces balance, starting at `i`: text without
    /// braces, then braced blocks each followed by more such text.
    pub fn escape_block_content(&self, i: usize) -> (r: usize)
        requires
            self.wf(),
            i <= self.source@.len(),
        ensures
            i <= r <= self.source@.len(),
            r == self.source@.len() || self.source@[r as int] == '}',
            r == g_escape_content(self.source@, i as int),
        decreases self.source@.len() - i,
    {
        let mut j = i;
        loop
            invariant
                self.wf(),
                i <= j <= self.source@.len(),
                g_escape_content(self.source@, i as int) == g_escape_content(self.source@, j as int),
            decreases self.source@.len() - j,
        {
            let mut k = j;
            while k < self.source.len() && self.source[k] != '{' && self.source[k] != '}'
                invariant
                    j <= k <= self.source@.len(),
                    brace_at(self.source@, j as int) == brace_at(self.source@, k as int),
                decreases self.source@.len() - k,
            {
                k = k + 1;
            }
            if k < self.source.len() && self.source[k] == '{' {
                let a = self.ws0(k + 1);
                let b = self.escape_block_content(a);
                let c = self.ws0(b);
                if c < self.source.len() && self.source[c] == '}' {
                    j = c + 1;
                    continue;
                }
            }
            let mut m = j;
            while m < self.source.len() && self.source[m] != '}'
                invariant
                    i <= j <= m <= self.source@.len(),
                    close_at(self.source@, j as int) == close_at(self.source@, m as int),
                decreases self.source@.len() - m,
            {
                m = m + 1;
            }
            return m;
        }
    }

    /// The characters `i..j`, without leading and trailing whitespace.
    fn trimmed_text(&self, i: usize, j: usize) -> (r: Vec<char>)
        requires
            i <= j <= self.source@.len(),
        ensures
            ({
                let a = trim_start(self.source@, i as int, j as int);
                r@ == self.source@.subrange(a, trim_end(self.source@, a, j as int))
            }),
    {
        let mut a = i;
        while a < j && crate::parser::identifier::is_whitespace(self.source[a])
            invariant
                i <= a <= j <= self.source@.len(),
                trim_start(self.source@, i as int, j as int) == trim_start(self.source@, a as int, j as int),
            decreases j - a,
        {
            a = a + 1;
        }
        let mut b = j;
        while b > a && crate::parser::identifier::is_whitespace(self.source[b - 1])
            invariant
                a <= b <= j <= self.source@.len(),
                trim_end(self.source@, a as int, j as int) == trim_end(self.source@, a as int, b as int),
            decreases b,
        {
            b = b - 1;
        }
        self.text(a, b)
    }
}

} // verus!
