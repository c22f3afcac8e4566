//! The language that the parser reads, as functions from a position of the
//! source to the position after what is read there (`None` where nothing of
//! the kind is). Choices are ordered: the first alternative that reads
//! something wins, as in the parser. A step that would read nothing is no
//! step, so every repetition ends.
use vstd::prelude::*;

use crate::ir::context::IrCtx;
use crate::ir::node::{Expr, Stmt};

use super::expression::{decimal_value, digits_end, is_digit, number_end};
use super::identifier::spec_identifier;
use super::statement::{line_end, spec_annotation, spec_mutability, spec_return_annotation};
use super::type_signature::{sig_failure, spec_type_sig};
use super::{Res, advances, is_space, spec_spaced_char, spec_spaced_tag, ws_end};

verus! {

/// What a parser gives back where the language reads `g`: the same end
/// where it succeeds, and a failure only where the language reads nothing
/// there or where the type table has filled up.
pub open spec fn reads<T>(ctx: &IrCtx, r: Res<T>, g: Option<int>) -> bool {
    match r {
        Ok((j, _)) => g == Some(j as int),
        Err(e) => sig_failure(ctx, e, g is None),
    }
}

/// `r`, where it lies after `i` and within `s`.
pub open spec fn past(s: Seq<char>, i: int, r: Option<int>) -> Option<int> {
    match r {
        Some(j) => if advances(s, i, j) {
            Some(j)
        } else {
            None
        },
        None => None,
    }
}

/// The character `c`, with whitespace around it.
pub open spec fn g_char(s: Seq<char>, i: int, c: char) -> Option<int> {
    past(s, i, spec_spaced_char(s, i, c))
}

/// The word `t`, with whitespace around it.
pub open spec fn g_word(s: Seq<char>, i: int, t: Seq<char>) -> Option<int> {
    past(s, i, spec_spaced_tag(s, i, t))
}

/// `t` right at `i`.
pub open spec fn g_tag(s: Seq<char>, i: int, t: Seq<char>) -> Option<int> {
    if 0 <= i && i + t.len() <= s.len() && s.subrange(i, i + t.len()) == t {
        Some(i + t.len())
    } else {
        None
    }
}

/// An identifier and the whitespace after it.
pub open spec fn g_ident(s: Seq<char>, i: int) -> Option<int> {
    match spec_identifier(s, i) {
        Some((_, _, e)) => past(s, i, Some(e)),
        None => None,
    }
}

/// Whitespace, then the character `c`.
pub open spec fn g_closing(s: Seq<char>, i: int, c: char) -> Option<int> {
    let a = ws_end(s, i);
    if i <= a < s.len() && s[a] == c {
        Some(a + 1)
    } else {
        None
    }
}

/// A type signature.
pub open spec fn g_type(s: Seq<char>, i: int) -> Option<int> {
    match spec_type_sig(s, i) {
        Some((j, _)) => past(s, i, Some(j)),
        None => None,
    }
}

/// An optional type after the separator `sep`.
pub open spec fn g_annotation(s: Seq<char>, i: int, sep: char) -> int {
    match spec_annotation(s, i, sep) {
        Some((j, _)) => if advances(s, i, j) {
            j
        } else {
            i
        },
        None => i,
    }
}

/// An optional return type after `->`.
pub open spec fn g_return_type(s: Seq<char>, i: int) -> int {
    match spec_return_annotation(s, i) {
        Some((j, _)) => if advances(s, i, j) {
            j
        } else {
            i
        },
        None => i,
    }
}

/// `let` or `var`.
pub open spec fn g_mutability(s: Seq<char>, i: int) -> Option<int> {
    match spec_mutability(s, i) {
        Some((j, _)) => past(s, i, Some(j)),
        None => None,
    }
}

/// A separator of statements and declarations: `;` or a newline.
pub open spec fn g_separator(s: Seq<char>, i: int) -> Option<int> {
    if 0 <= i < s.len() && (s[i] == ';' || s[i] == '\n') {
        Some(i + 1)
    } else {
        None
    }
}

/// The first position at or after `k` that holds a double quote, or the end.
pub open spec fn quote_at(s: Seq<char>, k: int) -> int
    decreases s.len() - k,
{
    if k < 0 || k >= s.len() || s[k] == '"' {
        k
    } else {
        quote_at(s, k + 1)
    }
}

/// `"..."`.
pub open spec fn g_string(s: Seq<char>, i: int) -> Option<int> {
    if 0 <= i < s.len() && s[i] == '"' && quote_at(s, i + 1) < s.len() {
        Some(quote_at(s, i + 1) + 1)
    } else {
        None
    }
}

/// A number literal.
pub open spec fn g_number(s: Seq<char>, i: int) -> Option<int> {
    if 0 <= i < s.len() && is_digit(s[i]) {
        Some(number_end(s, i))
    } else {
        None
    }
}

/// `true` or `false`.
pub open spec fn g_bool(s: Seq<char>, i: int) -> Option<int> {
    match g_tag(s, i, seq!['t', 'r', 'u', 'e']) {
        Some(j) => Some(j),
        None => g_tag(s, i, seq!['f', 'a', 'l', 's', 'e']),
    }
}

/// A line comment: `//` and the rest of its line.
pub open spec fn g_comment(s: Seq<char>, i: int) -> Option<int> {
    let a = ws_end(s, i);
    if a + 2 <= s.len() && s.subrange(a, a + 2) == seq!['/', '/'] {
        Some(line_end(s, a + 2))
    } else {
        None
    }
}

/// The first position at or after `k` that holds a brace, or the end.
pub open spec fn brace_at(s: Seq<char>, k: int) -> int
    decreases s.len() - k,
{
    if k < 0 || k >= s.len() || s[k] == '{' || s[k] == '}' {
        k
    } else {
        brace_at(s, k + 1)
    }
}

/// The first position at or after `k` that holds `}`, or the end.
pub open spec fn close_at(s: Seq<char>, k: int) -> int
    decreases s.len() - k,
{
    if k < 0 || k >= s.len() || s[k] == '}' {
        k
    } else {
        close_at(s, k + 1)
    }
}

/// Code of the target language from `j`: text without braces, then braced
/// blocks of such code, each followed by more text; where a block does not
/// close, the code runs to the next `}`.
pub open spec fn g_escape_content(s: Seq<char>, j: int) -> int
    decreases s.len() - j,
{
    let k = brace_at(s, j);
    if j < 0 || j > s.len() {
        j
    } else if k < s.len() && s[k] == '{' && j < ws_end(s, k + 1) <= s.len() {
        let c = ws_end(s, g_escape_content(s, ws_end(s, k + 1)));
        if j < c < s.len() && s[c] == '}' {
            g_escape_content(s, c + 1)
        } else {
            close_at(s, j)
        }
    } else {
        close_at(s, j)
    }
}

/// `@{ CODE }` or `@TYPE{ CODE }`.
pub open spec fn g_escape(s: Seq<char>, i: int) -> Option<int> {
    match g_char(s, i, '@') {
        Some(a) => {
            let b = match g_type(s, a) {
                Some(b) => b,
                None => a,
            };
            match g_char(s, b, '{') {
                Some(c) => g_closing(s, g_escape_content(s, c), '}'),
                None => None,
            }
        },
        None => None,
    }
}

/// `NAME [: TYPE]`.
pub open spec fn g_farg(s: Seq<char>, i: int) -> Option<int> {
    match g_ident(s, i) {
        Some(a) => Some(g_annotation(s, a, ':')),
        None => None,
    }
}

/// `, ARG` repeated.
pub open spec fn g_fargs_rest(s: Seq<char>, j: int) -> int
    decreases s.len() - j,
{
    match g_char(s, j, ',') {
        Some(k) => match past(s, k, g_farg(s, k)) {
            Some(m) => g_fargs_rest(s, m),
            None => j,
        },
        None => j,
    }
}

/// `( ARG, ... )`.
pub open spec fn g_fargs(s: Seq<char>, i: int) -> Option<int> {
    match g_char(s, i, '(') {
        Some(j) => {
            let k = match past(s, j, g_farg(s, j)) {
                Some(k) => g_fargs_rest(s, k),
                None => j,
            };
            past(s, i, g_closing(s, k, ')'))
        },
        None => None,
    }
}

/// Where the arguments written inside the brackets that open at `i`
/// start, in order.
pub open spec fn g_farg_starts(s: Seq<char>, i: int) -> Seq<int> {
    match g_char(s, i, '(') {
        Some(j) => match past(s, j, g_farg(s, j)) {
            Some(k) => seq![j] + g_farg_rest_starts(s, k),
            None => Seq::empty(),
        },
        None => Seq::empty(),
    }
}

/// Where the arguments after the first, from `j`, start.
pub open spec fn g_farg_rest_starts(s: Seq<char>, j: int) -> Seq<int>
    decreases s.len() - j,
{
    match g_char(s, j, ',') {
        Some(k) => match past(s, k, g_farg(s, k)) {
            Some(m) => seq![k] + g_farg_rest_starts(s, m),
            None => Seq::empty(),
        },
        None => Seq::empty(),
    }
}

/// `, TYPE` repeated.
pub open spec fn g_types_rest(s: Seq<char>, j: int) -> int
    decreases s.len() - j,
{
    match g_char(s, j, ',') {
        Some(k) => match g_type(s, k) {
            Some(m) => g_types_rest(s, m),
            None => j,
        },
        None => j,
    }
}

/// Where the types written inside the brackets that open at `i` start, in
/// order.
pub open spec fn g_type_starts(s: Seq<char>, i: int) -> Seq<int> {
    match g_char(s, i, '(') {
        Some(j) => match g_type(s, j) {
            Some(k) => seq![j] + g_type_rest_starts(s, k),
            None => Seq::empty(),
        },
        None => Seq::empty(),
    }
}

/// Where the types after the first, from `j`, start.
pub open spec fn g_type_rest_starts(s: Seq<char>, j: int) -> Seq<int>
    decreases s.len() - j,
{
    match g_char(s, j, ',') {
        Some(k) => match g_type(s, k) {
            Some(m) => seq![k] + g_type_rest_starts(s, m),
            None => Seq::empty(),
        },
        None => Seq::empty(),
    }
}

/// `( TYPE, ... )`, with at least one type.
pub open spec fn g_types1(s: Seq<char>, i: int) -> Option<int> {
    match g_char(s, i, '(') {
        Some(j) => match g_type(s, j) {
            Some(k) => g_closing(s, g_types_rest(s, k), ')'),
            None => None,
        },
        None => None,
    }
}

/// `NAME [( TYPE, ... )]`.
pub open spec fn g_enum_value(s: Seq<char>, i: int) -> Option<int> {
    match g_ident(s, i) {
        Some(a) => match g_types1(s, a) {
            Some(b) => Some(b),
            None => Some(a),
        },
        None => None,
    }
}

/// Separated enum values after the first.
pub open spec fn g_enum_values_rest(s: Seq<char>, j: int) -> int
    decreases s.len() - j,
{
    match g_separator(s, j) {
        Some(k) => match past(s, k, g_enum_value(s, k)) {
            Some(m) => g_enum_values_rest(s, m),
            None => j,
        },
        None => j,
    }
}

/// Enum values separated by `;` or newlines; possibly none.
pub open spec fn g_enum_values(s: Seq<char>, i: int) -> int {
    match past(s, i, g_enum_value(s, i)) {
        Some(k) => g_enum_values_rest(s, k),
        None => i,
    }
}

/// Where the enum values from `i` start, in order.
pub open spec fn g_value_starts(s: Seq<char>, i: int) -> Seq<int> {
    match past(s, i, g_enum_value(s, i)) {
        Some(k) => seq![i] + g_value_rest_starts(s, k),
        None => Seq::empty(),
    }
}

/// Where the separated enum values after the first, from `j`, start.
pub open spec fn g_value_rest_starts(s: Seq<char>, j: int) -> Seq<int>
    decreases s.len() - j,
{
    match g_separator(s, j) {
        Some(k) => match past(s, k, g_enum_value(s, k)) {
            Some(m) => seq![k] + g_value_rest_starts(s, m),
            None => Seq::empty(),
        },
        None => Seq::empty(),
    }
}

/// `enum NAME { VALUE ; ... }`.
pub open spec fn g_enum(s: Seq<char>, i: int) -> Option<int> {
    match g_word(s, i, seq!['e', 'n', 'u', 'm']) {
        Some(a) => match g_ident(s, a) {
            Some(b) => match g_char(s, b, '{') {
                Some(j) => g_closing(s, g_enum_values(s, j), '}'),
                None => None,
            },
            None => None,
        },
        None => None,
    }
}

/// The keyword `kw`, at least one whitespace character and a name: the
/// position after the name.
pub open spec fn g_named(s: Seq<char>, i: int, kw: Seq<char>) -> Option<int> {
    match g_tag(s, ws_end(s, i), kw) {
        Some(a1) => if a1 < s.len() && is_space(s[a1]) {
            match g_ident(s, ws_end(s, a1)) {
                Some(b) => past(s, i, Some(b)),
                None => None,
            }
        } else {
            None
        },
        None => None,
    }
}

/// An expression: a base, then calls, member accesses and tuple accesses,
/// then assignments.
pub open spec fn g_expr(s: Seq<char>, i: int) -> Option<int>
    decreases s.len() - i, 7nat,
{
    match past(s, i, g_base(s, i)) {
        Some(j) => g_tail(s, j),
        None => None,
    }
}

/// The base of an expression, tried in this order: a struct
/// initialization, an identifier, a member access without object, a
/// string, a number, a boolean, a function expression, a tuple, an escape
/// block.
pub open spec fn g_base(s: Seq<char>, i: int) -> Option<int>
    decreases s.len() - i, 6nat,
{
    if g_struct_init(s, i) is Some {
        g_struct_init(s, i)
    } else if g_ident(s, i) is Some {
        g_ident(s, i)
    } else if g_anon_member(s, i) is Some {
        g_anon_member(s, i)
    } else if g_string(s, i) is Some {
        g_string(s, i)
    } else if g_number(s, i) is Some {
        g_number(s, i)
    } else if g_bool(s, i) is Some {
        g_bool(s, i)
    } else if g_func_expr(s, i) is Some {
        g_func_expr(s, i)
    } else if g_args(s, i) is Some {
        g_args(s, i)
    } else {
        g_escape(s, i)
    }
}

/// `( EXPR, ... )`.
pub open spec fn g_args(s: Seq<char>, i: int) -> Option<int>
    decreases s.len() - i, 2nat,
{
    match g_char(s, i, '(') {
        Some(j) => {
            let k = match past(s, j, g_expr(s, j)) {
                Some(k) => g_args_rest(s, k),
                None => j,
            };
            past(s, i, g_closing(s, k, ')'))
        },
        None => None,
    }
}

/// `, EXPR` repeated.
pub open spec fn g_args_rest(s: Seq<char>, j: int) -> int
    decreases s.len() - j, 2nat,
{
    match g_char(s, j, ',') {
        Some(k) => match past(s, k, g_expr(s, k)) {
            Some(m) => g_args_rest(s, m),
            None => j,
        },
        None => j,
    }
}

/// Calls, member accesses and tuple accesses after the expression read up
/// to `j`, then assignments. A tuple index that does not fit in `usize`
/// is refused.
pub open spec fn g_tail(s: Seq<char>, j: int) -> Option<int>
    decreases s.len() - j, 3nat,
{
    match past(s, j, g_args(s, j)) {
        Some(k) => g_tail(s, k),
        None => match g_char(s, j, '.') {
            Some(d) => match g_ident(s, d) {
                Some(k) => match past(s, k, g_args(s, k)) {
                    Some(k2) => g_tail(s, k2),
                    None => g_tail(s, k),
                },
                None => if 0 <= d < s.len() && is_digit(s[d]) {
                    let k = digits_end(s, d);
                    if decimal_value(s, d, k) <= usize::MAX && advances(s, d, k) {
                        g_tail(s, k)
                    } else {
                        None
                    }
                } else {
                    Some(g_assign(s, j))
                },
            },
            None => Some(g_assign(s, j)),
        },
    }
}

/// `= EXPR` repeated.
pub open spec fn g_assign(s: Seq<char>, j: int) -> int
    decreases s.len() - j, 2nat,
{
    match g_char(s, j, '=') {
        Some(k) => match past(s, k, g_expr(s, k)) {
            Some(m) => g_assign(s, m),
            None => j,
        },
        None => j,
    }
}

/// `NAME { ATTR: EXPR, ... }`.
pub open spec fn g_struct_init(s: Seq<char>, i: int) -> Option<int>
    decreases s.len() - i, 5nat,
{
    match g_ident(s, i) {
        Some(a) => match g_char(s, a, '{') {
            Some(j) => {
                let k = match past(s, j, g_init_value(s, j)) {
                    Some(k) => g_init_values_rest(s, k),
                    None => j,
                };
                g_closing(s, k, '}')
            },
            None => None,
        },
        None => None,
    }
}

/// `ATTR: EXPR`.
pub open spec fn g_init_value(s: Seq<char>, i: int) -> Option<int>
    decreases s.len() - i, 4nat,
{
    match g_ident(s, i) {
        Some(a) => match g_char(s, a, ':') {
            Some(b) => g_expr(s, b),
            None => None,
        },
        None => None,
    }
}

/// `, ATTR: EXPR` repeated.
pub open spec fn g_init_values_rest(s: Seq<char>, j: int) -> int
    decreases s.len() - j, 4nat,
{
    match g_char(s, j, ',') {
        Some(k) => match past(s, k, g_init_value(s, k)) {
            Some(m) => g_init_values_rest(s, m),
            None => j,
        },
        None => j,
    }
}

/// `.MEMBER` or `.MEMBER(EXPR, ...)`.
pub open spec fn g_anon_member(s: Seq<char>, i: int) -> Option<int>
    decreases s.len() - i, 5nat,
{
    match g_char(s, i, '.') {
        Some(a) => match g_ident(s, a) {
            Some(b) => match past(s, b, g_args(s, b)) {
                Some(c) => Some(c),
                None => Some(b),
            },
            None => None,
        },
        None => None,
    }
}

/// `( ARG, ... ) [-> TYPE] { STATEMENTS }`.
pub open spec fn g_func_expr(s: Seq<char>, i: int) -> Option<int>
    decreases s.len() - i, 5nat,
{
    match g_fargs(s, i) {
        Some(a) => g_block(s, g_return_type(s, a)),
        None => None,
    }
}

/// `{ STATEMENTS }`.
pub open spec fn g_block(s: Seq<char>, i: int) -> Option<int>
    decreases s.len() - i, 11nat,
{
    match g_char(s, i, '{') {
        Some(a) => g_closing(s, g_stmts(s, a), '}'),
        None => None,
    }
}

/// Statements separated by `;` or newlines, with an optional final `;`;
/// possibly none.
pub open spec fn g_stmts(s: Seq<char>, i: int) -> int
    decreases s.len() - i, 10nat,
{
    let j = match past(s, i, g_stmt(s, i)) {
        Some(k) => g_stmts_rest(s, k),
        None => i,
    };
    match g_char(s, j, ';') {
        Some(k) => k,
        None => j,
    }
}

/// Separated statements after the first.
pub open spec fn g_stmts_rest(s: Seq<char>, j: int) -> int
    decreases s.len() - j, 10nat,
{
    match g_separator(s, j) {
        Some(k) => match past(s, k, g_stmt(s, k)) {
            Some(m) => g_stmts_rest(s, m),
            None => j,
        },
        None => j,
    }
}

/// One statement, tried in this order: a comment, a variable, a function,
/// a struct, an enum, a return, an expression.
pub open spec fn g_stmt(s: Seq<char>, i: int) -> Option<int>
    decreases s.len() - i, 9nat,
{
    if g_comment(s, i) is Some {
        g_comment(s, i)
    } else if g_var_decl(s, i) is Some {
        g_var_decl(s, i)
    } else if g_func_decl(s, i) is Some {
        g_func_decl(s, i)
    } else if g_struct(s, i) is Some {
        g_struct(s, i)
    } else if g_enum(s, i) is Some {
        g_enum(s, i)
    } else if g_return(s, i) is Some {
        g_return(s, i)
    } else {
        g_expr(s, i)
    }
}

/// `(let | var) NAME [: TYPE] = EXPR`.
pub open spec fn g_var_decl(s: Seq<char>, i: int) -> Option<int>
    decreases s.len() - i, 8nat,
{
    match g_mutability(s, i) {
        Some(a) => match g_ident(s, a) {
            Some(b) => match g_char(s, g_annotation(s, b, ':'), '=') {
                Some(d) => g_expr(s, d),
                None => None,
            },
            None => None,
        },
        None => None,
    }
}

/// `func NAME ( ARG, ... ) [-> TYPE] { STATEMENTS }`.
pub open spec fn g_func_decl(s: Seq<char>, i: int) -> Option<int>
    decreases s.len() - i, 8nat,
{
    match g_named(s, i, seq!['f', 'u', 'n', 'c']) {
        Some(b) => match g_fargs(s, b) {
            Some(c) => g_block(s, g_return_type(s, c)),
            None => None,
        },
        None => None,
    }
}

/// `struct NAME { ATTR ; ... }`.
pub open spec fn g_struct(s: Seq<char>, i: int) -> Option<int>
    decreases s.len() - i, 8nat,
{
    match g_named(s, i, seq!['s', 't', 'r', 'u', 'c', 't']) {
        Some(b) => match g_char(s, b, '{') {
            Some(j) => g_closing(s, g_attrs(s, j), '}'),
            None => None,
        },
        None => None,
    }
}

/// Struct attributes separated by `;` or newlines; possibly none.
pub open spec fn g_attrs(s: Seq<char>, i: int) -> int
    decreases s.len() - i, 8nat,
{
    match past(s, i, g_attr(s, i)) {
        Some(k) => g_attrs_rest(s, k),
        None => i,
    }
}

/// Separated struct attributes after the first.
pub open spec fn g_attrs_rest(s: Seq<char>, j: int) -> int
    decreases s.len() - j, 8nat,
{
    match g_separator(s, j) {
        Some(k) => match past(s, k, g_attr(s, k)) {
            Some(m) => g_attrs_rest(s, m),
            None => j,
        },
        None => j,
    }
}

/// Where the struct attributes from `i` start, in order.
pub open spec fn g_attr_starts(s: Seq<char>, i: int) -> Seq<int> {
    match past(s, i, g_attr(s, i)) {
        Some(k) => seq![i] + g_attr_rest_starts(s, k),
        None => Seq::empty(),
    }
}

/// Where the separated struct attributes after the first, from `j`, start.
pub open spec fn g_attr_rest_starts(s: Seq<char>, j: int) -> Seq<int>
    decreases s.len() - j,
{
    match g_separator(s, j) {
        Some(k) => match past(s, k, g_attr(s, k)) {
            Some(m) => seq![k] + g_attr_rest_starts(s, m),
            None => Seq::empty(),
        },
        None => Seq::empty(),
    }
}

/// The struct attribute at `i` has a default value.
pub open spec fn g_attr_default(s: Seq<char>, i: int) -> bool {
    &&& g_mutability(s, i) matches Some(a)
    &&& g_ident(s, a) matches Some(b)
    &&& g_char(s, g_annotation(s, b, ':'), '=') matches Some(d)
    &&& past(s, d, g_expr(s, d)) is Some
}

/// `(let | var) NAME [: TYPE] [= EXPR]`.
pub open spec fn g_attr(s: Seq<char>, i: int) -> Option<int>
    decreases s.len() - i, 7nat,
{
    match g_mutability(s, i) {
        Some(a) => match g_ident(s, a) {
            Some(b) => {
                let c = g_annotation(s, b, ':');
                match g_char(s, c, '=') {
                    Some(d) => match past(s, d, g_expr(s, d)) {
                        Some(e) => Some(e),
                        None => Some(c),
                    },
                    None => Some(c),
                }
            },
            None => None,
        },
        None => None,
    }
}

/// `return EXPR`.
pub open spec fn g_return(s: Seq<char>, i: int) -> Option<int>
    decreases s.len() - i, 8nat,
{
    match g_word(s, i, seq!['r', 'e', 't', 'u', 'r', 'n']) {
        Some(a) => g_expr(s, a),
        None => None,
    }
}

/// The statement alternative that the language picks at `i` is the one
/// that `st` is.
pub open spec fn stmt_choice(s: Seq<char>, i: int, st: Stmt) -> bool {
    let comment = g_comment(s, i) is Some;
    let var = g_var_decl(s, i) is Some;
    let func = g_func_decl(s, i) is Some;
    let strukt = g_struct(s, i) is Some;
    let enm = g_enum(s, i) is Some;
    let ret = g_return(s, i) is Some;
    match st {
        Stmt::Comment(_) => comment,
        Stmt::VariableDecl(_) => !comment && var,
        Stmt::FunctionDecl(_) => !comment && !var && func,
        Stmt::StructDecl(_) => !comment && !var && !func && strukt,
        Stmt::EnumDecl(_) => !comment && !var && !func && !strukt && enm,
        Stmt::Return(_) => !comment && !var && !func && !strukt && !enm && ret,
        Stmt::Expression(_) => !comment && !var && !func && !strukt && !enm && !ret,
    }
}

/// The alternative of an expression's base that the language picks at `i`
/// is the one that `e` is.
pub open spec fn base_choice(s: Seq<char>, i: int, e: Expr) -> bool {
    let init = g_struct_init(s, i) is Some;
    let ident = g_ident(s, i) is Some;
    let anon = g_anon_member(s, i) is Some;
    let string = g_string(s, i) is Some;
    let number = g_number(s, i) is Some;
    let boolean = g_bool(s, i) is Some;
    let func = g_func_expr(s, i) is Some;
    let tuple = g_args(s, i) is Some;
    match e {
        Expr::StructInit { .. } => init,
        Expr::Identifier(_) => !init && ident,
        Expr::UnresolvedMemberAccess { .. } => !init && !ident && anon,
        Expr::StringLiteral(_) => !init && !ident && !anon && string,
        Expr::NumberLiteral(_) => !init && !ident && !anon && !string && number,
        Expr::BoolLiteral(_) => !init && !ident && !anon && !string && !number && boolean,
        Expr::Function(_) => !init && !ident && !anon && !string && !number && !boolean && func,
        Expr::Tuple(_) => !init && !ident && !anon && !string && !number && !boolean && !func && tuple,
        Expr::EscapeBlock { .. } => !init && !ident && !anon && !string && !number && !boolean && !func && !tuple,
        _ => false,
    }
}

/// Where the expressions in the round brackets at `i` start and end.
pub open spec fn g_arg_spans(s: Seq<char>, i: int) -> Seq<(int, int)> {
    match g_char(s, i, '(') {
        Some(j) => match past(s, j, g_expr(s, j)) {
            Some(k) => seq![(j, k)] + g_arg_spans_rest(s, k),
            None => Seq::empty(),
        },
        None => Seq::empty(),
    }
}

/// Where the expressions after the first in round brackets start and end.
pub open spec fn g_arg_spans_rest(s: Seq<char>, j: int) -> Seq<(int, int)>
    decreases s.len() - j,
{
    match g_char(s, j, ',') {
        Some(k) => match past(s, k, g_expr(s, k)) {
            Some(m) => seq![(k, m)] + g_arg_spans_rest(s, m),
            None => Seq::empty(),
        },
        None => Seq::empty(),
    }
}

/// Where the statements read from `i` start and end, in order.
pub open spec fn g_stmt_spans(s: Seq<char>, i: int) -> Seq<(int, int)> {
    match past(s, i, g_stmt(s, i)) {
        Some(k) => seq![(i, k)] + g_stmt_spans_rest(s, k),
        None => Seq::empty(),
    }
}

/// Where the separated statements after the first start and end.
pub open spec fn g_stmt_spans_rest(s: Seq<char>, j: int) -> Seq<(int, int)>
    decreases s.len() - j,
{
    match g_separator(s, j) {
        Some(k) => match past(s, k, g_stmt(s, k)) {
            Some(m) => seq![(k, m)] + g_stmt_spans_rest(s, m),
            None => Seq::empty(),
        },
        None => Seq::empty(),
    }
}

/// Where the statements of the block at `i` start and end.
pub open spec fn g_block_spans(s: Seq<char>, i: int) -> Seq<(int, int)> {
    match g_char(s, i, '{') {
        Some(a) => g_stmt_spans(s, a),
        None => Seq::empty(),
    }
}

/// Where the statements of the body of the function expression at `i`
/// start and end.
pub open spec fn g_func_expr_body(s: Seq<char>, i: int) -> Seq<(int, int)> {
    match g_fargs(s, i) {
        Some(a) => g_block_spans(s, g_return_type(s, a)),
        None => Seq::empty(),
    }
}

/// Where the statements of the body of the function declared at `i` start
/// and end.
pub open spec fn g_func_decl_body(s: Seq<char>, i: int) -> Seq<(int, int)> {
    match g_named(s, i, seq!['f', 'u', 'n', 'c']) {
        Some(b) => g_func_expr_body(s, b),
        None => Seq::empty(),
    }
}

/// A whole program: statements, with optional whitespace around them, up
/// to the end of the input.
pub open spec fn g_program(s: Seq<char>) -> bool {
    ws_end(s, g_stmts(s, ws_end(s, 0))) >= s.len()
}

} // verus!
