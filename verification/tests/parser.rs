use typewriter::ir::context::IrCtx;
use typewriter::ir::node::{Expr, Mutability, Node, NodeRef, Span, Stmt};
use typewriter::ir::types::TypeSignatureValue;
use typewriter::parser::{ParserContext, ParserErrorKind};

fn s(v: &[char]) -> String {
    v.iter().collect()
}

fn frag(p: &ParserContext, span: &Span) -> String {
    s(&p.source[span.start..span.end])
}

fn expr<'a>(ctx: &'a IrCtx, r: NodeRef) -> (&'a Expr, Span) {
    match &ctx.nodes[r] {
        Node::Expr(e, span) => (e, *span),
        n => panic!("expected an expression, got {n:?}"),
    }
}

fn parse_expr(src: &str) -> (ParserContext, IrCtx, NodeRef) {
    let p = ParserContext::new(src);
    let mut ctx = IrCtx::new();
    let (_, e) = p.expression(&mut ctx, 0).unwrap();
    (p, ctx, e)
}

fn base_type_name(ctx: &IrCtx, t: typewriter::ir::types::TypeSignature) -> String {
    match &ctx.types.types[t.id] {
        TypeSignatureValue::Unresolved(n) => s(n),
        v => panic!("expected a named type, got {v:?}"),
    }
}

#[test]
fn test_expr_number() {
    let (p, ctx, e) = parse_expr("23");
    match expr(&ctx, e) {
        (Expr::NumberLiteral(v), span) => {
            assert_eq!(s(v).parse::<f64>().unwrap(), 23.0);
            assert_eq!(frag(&p, &span), "23");
        }
        _ => assert!(false),
    }
    let (_, ctx, e) = parse_expr("23.2");
    match expr(&ctx, e).0 {
        Expr::NumberLiteral(v) => assert_eq!(s(v).parse::<f64>().unwrap(), 23.2),
        _ => assert!(false),
    }
}

#[test]
fn expression_test_expr_string_literal() {
    let (p, ctx, e) = parse_expr("\"hello\"");
    match expr(&ctx, e) {
        (Expr::StringLiteral(v), span) => {
            assert_eq!(s(v), "hello");
            assert_eq!(span.line, 1);
            assert_eq!(span.offset, 1);
            assert_eq!(frag(&p, &span), "\"hello\"");
        }
        _ => assert!(false),
    }
    let p = ParserContext::new("\"hello not closed");
    assert!(p.expr_string_literal(0).is_err());
}

#[test]
fn test_expr_identifier() {
    for name in ["ident_234", "$_ident"] {
        let (p, ctx, e) = parse_expr(name);
        match expr(&ctx, e) {
            (Expr::Identifier(id), span) => {
                assert_eq!(s(&id.name), name);
                assert_eq!(frag(&p, &span), name);
            }
            _ => assert!(false),
        }
    }
}

#[test]
fn test_expr_tail_chain() {
    let (p, ctx, e) = parse_expr("base()().first.next(123)");
    match expr(&ctx, e) {
        (Expr::UnresolvedMemberAccess { member_name, items, .. }, span) => {
            assert_eq!(items.as_ref().unwrap().len(), 1);
            assert_eq!(s(&member_name.name), "next");
            assert_eq!(frag(&p, &span), "base()().first.next(123)");
        }
        _ => assert!(false),
    }
}

#[test]
fn test_expr_assignments() {
    let (p, ctx, e) = parse_expr("a = b = 2");
    match expr(&ctx, e) {
        (Expr::Assignment { lhs, rhs }, span) => {
            assert_eq!(frag(&p, &span), "a = b = 2");
            match expr(&ctx, *lhs).0 {
                Expr::Identifier(id) => assert_eq!(s(&id.name), "a"),
                _ => assert!(false),
            }
            match expr(&ctx, *rhs).0 {
                Expr::Assignment { lhs, rhs } => {
                    assert!(matches!(expr(&ctx, *lhs).0, Expr::Identifier(_)));
                    assert!(matches!(expr(&ctx, *rhs).0, Expr::NumberLiteral(_)));
                }
                _ => assert!(false),
            }
        }
        _ => assert!(false),
    }
}

#[test]
fn test_expr_tuple() {
    let (p, ctx, e) = parse_expr("(true, 42)");
    match expr(&ctx, e) {
        (Expr::Tuple(values), span) => {
            assert_eq!(values.len(), 2);
            assert!(matches!(expr(&ctx, values[0]).0, Expr::BoolLiteral(true)));
            assert_eq!(frag(&p, &span), "(true, 42)");
            assert_eq!(frag(&p, &expr(&ctx, values[0]).1), "true");
            assert_eq!(frag(&p, &expr(&ctx, values[1]).1), "42");
        }
        _ => assert!(false),
    }
}

#[test]
fn test_expr_enum_init() {
    let (_, ctx, e) = parse_expr("IPAddress.v4(192, 168, 0, 1)");
    match expr(&ctx, e).0 {
        Expr::UnresolvedMemberAccess { object, member_name, items, .. } => {
            match expr(&ctx, object.unwrap()).0 {
                Expr::Identifier(id) => assert_eq!(s(&id.name), "IPAddress"),
                _ => assert!(false),
            }
            assert_eq!(s(&member_name.name), "v4");
            assert_eq!(items.as_ref().unwrap().len(), 4);
        }
        other => assert!(false, "Expected EnumInit expression, got {other:?}"),
    }
}

#[test]
fn test_valid_identifier() {
    let p = ParserContext::new("hello123");
    assert_eq!(s(&p.identifier(0).unwrap().1.name), "hello123");
}

#[test]
fn test_module() {
    let ast = typewriter::parser::parse_ast("struct S {}\nlet x = false").unwrap();
    assert_eq!(ast.stmts.len(), 2);
}

#[test]
fn test_invalid_end() {
    assert!(typewriter::parser::parse_ast("let x = 2 INVALID").is_err());
}

#[test]
fn test_function_call() {
    let (_, ctx, e) = parse_expr("f(10, \"hello\")");
    match expr(&ctx, e).0 {
        Expr::FunctionCall { func, params } => {
            match expr(&ctx, *func).0 {
                Expr::Identifier(id) => assert_eq!(s(&id.name), "f"),
                _ => assert!(false),
            }
            assert_eq!(params.len(), 2);
        }
        _ => assert!(false),
    }
}

#[test]
fn test_double_function_call() {
    let (p, ctx, e) = parse_expr("f(10)(20)");
    match expr(&ctx, e) {
        (Expr::FunctionCall { func, params }, span) => {
            assert_eq!(frag(&p, &span), "f(10)(20)");
            match expr(&ctx, *func) {
                (Expr::FunctionCall { params: inner, .. }, span) => {
                    assert_eq!(frag(&p, &span), "f(10)");
                    assert_eq!(params.len(), 1);
                    assert_eq!(inner.len(), 1);
                }
                _ => assert!(false),
            }
        }
        _ => assert!(false),
    }
}

#[test]
fn test_function_decl_minimal() {
    let p = ParserContext::new("func f(){}");
    let mut ctx = IrCtx::new();
    let (_, f) = p.function_decl(&mut ctx, 0).unwrap();
    match &ctx.nodes[f] {
        Node::Function(func, _) => {
            assert_eq!(s(&func.name.as_ref().unwrap().name), "f");
            assert!(matches!(ctx.types.types[func.return_type.id], TypeSignatureValue::TypeVariable(_)));
            assert_eq!(func.args.len(), 0);
        }
        _ => assert!(false),
    }
}

#[test]
fn test_function_decl() {
    let p = ParserContext::new("func sum (a: Number, b: Number) -> Number {}");
    let mut ctx = IrCtx::new();
    let (_, f) = p.function_decl(&mut ctx, 0).unwrap();
    match &ctx.nodes[f] {
        Node::Function(func, _) => {
            assert_eq!(s(&func.name.as_ref().unwrap().name), "sum");
            assert_eq!(base_type_name(&ctx, func.return_type), "Number");
            assert_eq!(func.args.len(), 2);
            assert_eq!(s(&func.args[0].name.name), "a");
            assert_eq!(s(&func.args[1].name.name), "b");
            assert_eq!(base_type_name(&ctx, func.args[0].type_sig), "Number");
            assert_eq!(base_type_name(&ctx, func.args[1].type_sig), "Number");
        }
        _ => assert!(false),
    }
}

#[test]
fn test_function_expr() {
    let p = ParserContext::new("(a: Number, b: Number) {}");
    let mut ctx = IrCtx::new();
    let (_, f) = p.function_expr(&mut ctx, 0).unwrap();
    match &ctx.nodes[f] {
        Node::Function(func, _) => {
            assert_eq!(func.args.len(), 2);
            assert_eq!(s(&func.args[0].name.name), "a");
            assert_eq!(base_type_name(&ctx, func.args[0].type_sig), "Number");
            assert_eq!(s(&func.args[1].name.name), "b");
            assert_eq!(base_type_name(&ctx, func.args[1].type_sig), "Number");
            assert!(matches!(ctx.types.types[func.return_type.id], TypeSignatureValue::TypeVariable(_)));
        }
        _ => assert!(false),
    }
}

#[test]
fn structure_test_struct() {
    let p = ParserContext::new("struct Example { let attr: String }");
    let mut ctx = IrCtx::new();
    let (_, st) = p.structure(&mut ctx, 0).unwrap();
    match &ctx.nodes[st] {
        Node::Struct(st) => {
            assert_eq!(s(&st.name.name), "Example");
            assert_eq!(st.attrs.len(), 1);
            assert_eq!(s(&st.attrs[0].name.name), "attr");
            assert_eq!(st.attrs[0].mutability, typewriter::ir::node::Mutability::Immutable);
            assert_eq!(base_type_name(&ctx, st.attrs[0].type_sig), "String");
            assert!(st.attrs[0].default_value.is_none());
            assert_eq!(frag(&p, &st.attrs[0].span), "let attr: String");
        }
        _ => assert!(false),
    }
}

#[test]
fn test_struct_init() {
    let (p, ctx, e) = parse_expr("StructName { attr: true }");
    match expr(&ctx, e).0 {
        Expr::StructInit { struct_name, values } => {
            assert_eq!(s(&struct_name.name), "StructName");
            assert_eq!(values.len(), 1);
            assert_eq!(s(&values[0].name.name), "attr");
            assert!(matches!(expr(&ctx, values[0].value).0, Expr::BoolLiteral(true)));
            let _ = &p;
        }
        _ => assert!(false),
    }
}

#[test]
fn test_struct_access_simple() {
    let (_, ctx, e) = parse_expr("struct_name.attribute");
    match expr(&ctx, e).0 {
        Expr::UnresolvedMemberAccess { object, member_name, items, .. } => {
            match expr(&ctx, object.unwrap()).0 {
                Expr::Identifier(id) => assert_eq!(s(&id.name), "struct_name"),
                _ => assert!(false),
            }
            assert_eq!(s(&member_name.name), "attribute");
            assert!(items.is_none());
        }
        _ => assert!(false),
    }
}

#[test]
fn test_enum() {
    let p = ParserContext::new("enum Test { numbers(Number, Number); string(String); empty }");
    let mut ctx = IrCtx::new();
    let (_, e) = p.enumeration(&mut ctx, 0).unwrap();
    match &ctx.nodes[e] {
        Node::Enum(en) => {
            assert_eq!(s(&en.name.name), "Test");
            assert_eq!(en.values.len(), 3);
            assert_eq!(s(&en.values[0].name.name), "numbers");
            assert_eq!(en.values[0].items.len(), 2);
            assert_eq!(base_type_name(&ctx, en.values[0].items[0]), "Number");
            assert_eq!(base_type_name(&ctx, en.values[0].items[1]), "Number");
            assert_eq!(s(&en.values[1].name.name), "string");
            assert_eq!(base_type_name(&ctx, en.values[1].items[0]), "String");
            assert_eq!(s(&en.values[2].name.name), "empty");
            assert_eq!(en.values[2].items.len(), 0);
        }
        _ => assert!(false),
    }
}

#[test]
fn test_escape_block_brackets_balance() {
    let (_, ctx, e) = parse_expr("@{ const f = ({ a }) => { console.log({a}) }; f() }");
    match expr(&ctx, e).0 {
        Expr::EscapeBlock { content, type_sig } => {
            assert_eq!(s(content), "const f = ({ a }) => { console.log({a}) }; f()");
            assert!(matches!(ctx.types.types[type_sig.id], TypeSignatureValue::TypeVariable(_)));
        }
        _ => assert!(false),
    }
}

#[test]
fn test_typed_escape_block() {
    let (_, ctx, e) = parse_expr("@Boolean{ true || false }");
    match expr(&ctx, e).0 {
        Expr::EscapeBlock { content, type_sig } => {
            assert_eq!(s(content), "true || false");
            assert_eq!(base_type_name(&ctx, *type_sig), "Boolean");
        }
        _ => assert!(false),
    }
}

#[test]
fn statement_test_stmt() {
    let p = ParserContext::new("var name: String = \"John\"");
    let mut ctx = IrCtx::new();
    let (_, stmts) = p.statement(&mut ctx, 0).unwrap();
    assert_eq!(stmts.len(), 1);
    match &ctx.nodes[stmts[0]] {
        Node::Stmt(Stmt::VariableDecl(v), span) => {
            assert_eq!(frag(&p, span), "var name: String = \"John\"");
            match &ctx.nodes[*v] {
                Node::VarDecl(v) => {
                    assert_eq!(s(&v.name.name), "name");
                    assert_eq!(frag(&p, &v.name.span), "name");
                    assert_eq!(v.mutability, typewriter::ir::node::Mutability::Mutable);
                    assert_eq!(base_type_name(&ctx, v.type_sig), "String");
                    match expr(&ctx, v.value) {
                        (Expr::StringLiteral(l), span) => {
                            assert_eq!(s(l), "John");
                            assert_eq!(frag(&p, &span), "\"John\"");
                        }
                        _ => assert!(false),
                    }
                }
                _ => assert!(false),
            }
        }
        _ => assert!(false),
    }
}

#[test]
fn statement_test_stmt_type_inferrance() {
    let p = ParserContext::new("let name = true");
    let mut ctx = IrCtx::new();
    let (_, stmts) = p.statement(&mut ctx, 0).unwrap();
    match &ctx.nodes[stmts[0]] {
        Node::Stmt(Stmt::VariableDecl(v), span) => {
            assert_eq!(frag(&p, span), "let name = true");
            match &ctx.nodes[*v] {
                Node::VarDecl(v) => {
                    assert_eq!(s(&v.name.name), "name");
                    assert_eq!(v.mutability, typewriter::ir::node::Mutability::Immutable);
                    assert!(matches!(ctx.types.types[v.type_sig.id], TypeSignatureValue::TypeVariable(_)));
                    assert!(matches!(expr(&ctx, v.value).0, Expr::BoolLiteral(true)));
                }
                _ => assert!(false),
            }
        }
        _ => assert!(false),
    }
}

#[test]
fn test_base_type() {
    let p = ParserContext::new("Boolean");
    let mut ctx = IrCtx::new();
    let (_, (t, span)) = p.type_signature(&mut ctx, 0).unwrap();
    assert_eq!(frag(&p, &span), "Boolean");
    assert_eq!(base_type_name(&ctx, t), "Boolean");
}

#[test]
fn test_function_type() {
    let p = ParserContext::new("() -> Void");
    let mut ctx = IrCtx::new();
    let (_, (t, span)) = p.type_signature(&mut ctx, 0).unwrap();
    assert_eq!(frag(&p, &span), "() -> Void");
    match &ctx.types.types[t.id] {
        TypeSignatureValue::Function { args, return_type } => {
            assert!(args.is_empty());
            assert_eq!(base_type_name(&ctx, *return_type), "Void");
        }
        _ => assert!(false),
    }
}

#[test]
fn test_nested_function_type() {
    let p = ParserContext::new("(Number, (Number) -> Boolean) -> Boolean");
    let mut ctx = IrCtx::new();
    let (_, (t, span)) = p.type_signature(&mut ctx, 0).unwrap();
    assert_eq!(frag(&p, &span), "(Number, (Number) -> Boolean) -> Boolean");
    match &ctx.types.types[t.id] {
        TypeSignatureValue::Function { args, return_type } => {
            assert_eq!(args.len(), 2);
            assert_eq!(base_type_name(&ctx, args[0]), "Number");
            assert_eq!(base_type_name(&ctx, *return_type), "Boolean");
            match &ctx.types.types[args[1].id] {
                TypeSignatureValue::Function { args, return_type } => {
                    assert_eq!(args.len(), 1);
                    assert_eq!(base_type_name(&ctx, args[0]), "Number");
                    assert_eq!(base_type_name(&ctx, *return_type), "Boolean");
                }
                _ => assert!(false),
            }
        }
        _ => assert!(false),
    }
}

#[test]
fn test_tuple_type() {
    let p = ParserContext::new("()");
    let mut ctx = IrCtx::new();
    let (_, (t, _)) = p.type_signature(&mut ctx, 0).unwrap();
    match &ctx.types.types[t.id] {
        TypeSignatureValue::Tuple(v) => assert!(v.is_empty()),
        _ => assert!(false),
    }
    let p = ParserContext::new("(Number, String)");
    let mut ctx = IrCtx::new();
    let (_, (t, span)) = p.type_signature(&mut ctx, 0).unwrap();
    assert_eq!(frag(&p, &span), "(Number, String)");
    match &ctx.types.types[t.id] {
        TypeSignatureValue::Tuple(v) => {
            assert_eq!(v.len(), 2);
            assert_eq!(base_type_name(&ctx, v[0]), "Number");
            assert_eq!(base_type_name(&ctx, v[1]), "String");
        }
        _ => assert!(false),
    }
}

#[test]
fn test_function_var_assignment() {
    let ast = typewriter::parser::parse_ast("let f = (a: Number, b: Number) {}").unwrap();
    let stmts = &ast.stmts;
    assert_eq!(stmts.len(), 1);

    match &ast.ctx.nodes[stmts[0]] {
        Node::Stmt(Stmt::VariableDecl(var_decl), _) => match &ast.ctx.nodes[*var_decl] {
            Node::VarDecl(v) => {
                assert_eq!(s(&v.name.name), "f");
                match expr(&ast.ctx, v.value) {
                    (Expr::Function(func), _) => match &ast.ctx.nodes[*func] {
                        Node::Function(f, _) => assert_eq!(f.args.len(), 2),
                        _ => assert!(false),
                    },
                    _ => assert!(false),
                }
            }
            _ => assert!(false),
        },
        _ => assert!(false),
    }
}

#[test]
fn test_tuple_access_index() {
    let (_, ctx, e) = parse_expr("pair.12");
    match expr(&ctx, e).0 {
        Expr::TupleAccess { tuple_expr, attr } => {
            assert_eq!(*attr, 12);
            assert!(matches!(expr(&ctx, *tuple_expr).0, Expr::Identifier(_)));
        }
        _ => assert!(false),
    }
}

#[test]
fn test_tuple_access_index_too_large() {
    let p = ParserContext::new("pair.999999999999999999999999");
    let mut ctx = IrCtx::new();
    assert!(p.expression(&mut ctx, 0).is_err());
}

#[test]
fn test_line_comment_text() {
    let p = ParserContext::new("  // a note\nlet a = 1");
    let mut ctx = IrCtx::new();
    let (_, stmts) = p.statement(&mut ctx, 0).unwrap();
    assert_eq!(stmts.len(), 2);
    match &ctx.nodes[stmts[0]] {
        Node::Stmt(Stmt::Comment(c), _) => assert_eq!(s(c), " a note"),
        n => panic!("expected a comment, got {n:?}"),
    }
    assert!(matches!(ctx.nodes[stmts[1]], Node::Stmt(Stmt::VariableDecl(_), _)));
}

#[test]
fn test_struct_and_enum_names() {
    let p = ParserContext::new("struct Point { let x: Number }\nenum Color { red; green }");
    let mut ctx = IrCtx::new();
    let (_, stmts) = p.statement(&mut ctx, 0).unwrap();
    match &ctx.nodes[stmts[0]] {
        Node::Stmt(Stmt::StructDecl(d), _) => match &ctx.nodes[*d] {
            Node::Struct(st) => assert_eq!(s(&st.name.name), "Point"),
            n => panic!("expected a struct, got {n:?}"),
        },
        n => panic!("expected a struct declaration, got {n:?}"),
    }
    match &ctx.nodes[stmts[1]] {
        Node::Stmt(Stmt::EnumDecl(d), _) => match &ctx.nodes[*d] {
            Node::Enum(en) => {
                assert_eq!(s(&en.name.name), "Color");
                assert_eq!(en.values.len(), 2);
            }
            n => panic!("expected an enum, got {n:?}"),
        },
        n => panic!("expected an enum declaration, got {n:?}"),
    }
}

#[test]
fn test_block_comment_is_not_read() {
    let p = ParserContext::new("/* note */\nlet a = 1");
    let e = p.block_comment(0).unwrap_err();
    assert_eq!(e.offset, 10);
    assert_eq!(e.kind, ParserErrorKind::Token);
    let e = ParserContext::new("  x").block_comment(0).unwrap_err();
    assert_eq!(e.offset, 2);
    let q = ParserContext::new("// note");
    let (j, text) = q.comment(0).unwrap();
    assert_eq!(j, 7);
    assert_eq!(s(&text), " note");
}

#[test]
fn test_expr() {
    let (_, ctx, e) = parse_expr("\"hello\"");
    match expr(&ctx, e).0 {
        Expr::StringLiteral(v) => assert_eq!(s(v), "hello"),
        _ => assert!(false),
    }
    let (_, ctx, e) = parse_expr("23");
    match expr(&ctx, e).0 {
        Expr::NumberLiteral(v) => assert_eq!(s(v).parse::<f64>().unwrap(), 23.0),
        _ => assert!(false),
    }
    let (_, ctx, e) = parse_expr("23.2");
    match expr(&ctx, e).0 {
        Expr::NumberLiteral(v) => assert_eq!(s(v).parse::<f64>().unwrap(), 23.2),
        _ => assert!(false),
    }
}

#[test]
fn expressions_test_expr_string_literal() {
    let p = ParserContext::new("\"hello not closed");
    assert!(p.expr_string_literal(0).is_err());
}

#[test]
fn statements_test_stmt_type_inferrance() {
    let p = ParserContext::new("let name = 23");
    let mut ctx = IrCtx::new();
    let (_, stmts) = p.statement(&mut ctx, 0).unwrap();
    match &ctx.nodes[stmts[0]] {
        Node::Stmt(Stmt::VariableDecl(v), _) => match &ctx.nodes[*v] {
            Node::VarDecl(v) => {
                assert_eq!(s(&v.name.name), "name");
                assert_eq!(v.mutability, typewriter::ir::node::Mutability::Immutable);
                assert!(matches!(ctx.types.types[v.type_sig.id], TypeSignatureValue::TypeVariable(_)));
                match expr(&ctx, v.value).0 {
                    Expr::NumberLiteral(n) => assert_eq!(s(n).parse::<f64>().unwrap(), 23.0),
                    _ => assert!(false),
                }
            }
            _ => assert!(false),
        },
        _ => assert!(false),
    }
}

#[test]
fn structures_test_struct() {
    let p = ParserContext::new("struct Example { let attr: String }");
    let mut ctx = IrCtx::new();
    let (_, st) = p.structure(&mut ctx, 0).unwrap();
    match &ctx.nodes[st] {
        Node::Struct(st) => {
            assert_eq!(s(&st.name.name), "Example");
            assert_eq!(st.attrs.len(), 1);
            assert_eq!(s(&st.attrs[0].name.name), "attr");
            assert_eq!(st.attrs[0].mutability, typewriter::ir::node::Mutability::Immutable);
            assert_eq!(base_type_name(&ctx, st.attrs[0].type_sig), "String");
            assert!(st.attrs[0].default_value.is_none());
        }
        _ => assert!(false),
    }
}

#[test]
fn test_program_acceptance() {
    let accepted = [
        "",
        "  \n ",
        "a = b = c",
        "let x: number = 1; var y = x",
        "func f(a: number, b) -> number { return a }",
        "struct A { let a: number; var b = 2 }",
        "enum E { A(number, string); B }",
        "let f = (x) { x }(1).y.0",
        "@{ foo { bar } baz }",
        "@Number{ 1 }",
        "Point { x: 1, y: 2 }",
        ".Some(1)",
        "// a comment\nlet x = 1;",
    ];
    for src in accepted {
        assert!(typewriter::parser::parse_ast(src).is_ok(), "{src:?} should parse");
    }
    let refused = [
        "let x = ",
        "let x = (1, 2",
        "func f( { }",
        "struct A { let a: number",
        "@{ foo { bar }",
        "/* c */",
        "\"open",
        "x.99999999999999999999999",
        "1 2",
    ];
    for src in refused {
        assert!(typewriter::parser::parse_ast(src).is_err(), "{src:?} should not parse");
    }
}

#[test]
fn test_parse_error_kinds() {
    let e = typewriter::parser::parse_ast("1 2").unwrap_err();
    assert_eq!(e.kind, ParserErrorKind::EndOfInput);
    assert_eq!(e.offset, 2);
    let p = ParserContext::new("x.99999999999999999999999");
    let mut ctx = IrCtx::new();
    let e = p.expression(&mut ctx, 0).unwrap_err();
    assert_eq!(e.kind, ParserErrorKind::Literal);
}

#[test]
fn test_statement_spans() {
    let ast = typewriter::parser::parse_ast("let a = 1;  let b = 2").unwrap();
    let spans: Vec<(usize, usize)> = ast
        .stmts
        .iter()
        .map(|s| match &ast.ctx.nodes[*s] {
            Node::Stmt(_, span) => (span.start, span.end),
            n => panic!("expected a statement, got {n:?}"),
        })
        .collect();
    assert_eq!(spans, vec![(0, 9), (10, 21)]);
}

#[test]
fn test_tuple_item_spans() {
    let p = ParserContext::new("(a, bc ,d)");
    let mut ctx = IrCtx::new();
    let (j, t) = p.expr_tuple(&mut ctx, 0).unwrap();
    assert_eq!(j, 10);
    match t {
        Expr::Tuple(items) => {
            let spans: Vec<(usize, usize)> = items.iter().map(|e| (expr(&ctx, *e).1.start, expr(&ctx, *e).1.end)).collect();
            assert_eq!(spans, vec![(1, 2), (4, 7), (8, 9)]);
        }
        e => panic!("expected a tuple, got {e:?}"),
    }
}

#[test]
fn test_statement_choice() {
    let ast = typewriter::parser::parse_ast("return 1;x;// c").unwrap();
    let kinds: Vec<&str> = ast
        .stmts
        .iter()
        .map(|s| match &ast.ctx.nodes[*s] {
            Node::Stmt(Stmt::Return(_), _) => "return",
            Node::Stmt(Stmt::Expression(_), _) => "expression",
            Node::Stmt(Stmt::Comment(_), _) => "comment",
            _ => "other",
        })
        .collect();
    assert_eq!(kinds, vec!["return", "expression", "comment"]);
}

#[test]
fn test_struct_attrs_read_in_order() {
    let p = ParserContext::new("let a: Number = 1; var b; let c = 2");
    let mut ctx = IrCtx::new();
    let (j, attrs) = p.struct_attrs(&mut ctx, 0).unwrap();
    assert_eq!(j, 35);
    assert_eq!(attrs.len(), 3);
    assert_eq!(s(&attrs[0].name.name), "a");
    assert_eq!(attrs[0].mutability, Mutability::Immutable);
    assert!(attrs[0].default_value.is_some());
    assert_eq!(s(&attrs[1].name.name), "b");
    assert_eq!(attrs[1].mutability, Mutability::Mutable);
    assert!(attrs[1].default_value.is_none());
    assert_eq!(s(&attrs[2].name.name), "c");
    assert!(attrs[2].default_value.is_some());
}

#[test]
fn test_tail_chain_links() {
    let p = ParserContext::new("a.b(1, 2).c.0(x)");
    let mut ctx = IrCtx::new();
    let (j, e) = p.expression(&mut ctx, 0).unwrap();
    assert_eq!(j, 16);
    let call = match expr(&ctx, e).0 {
        Expr::FunctionCall { func, params } => {
            assert_eq!(params.len(), 1);
            assert_eq!(frag(&p, &expr(&ctx, params[0]).1), "x");
            *func
        }
        other => panic!("expected a call, got {other:?}"),
    };
    let member = match expr(&ctx, call).0 {
        Expr::TupleAccess { tuple_expr, attr } => {
            assert_eq!(*attr, 0);
            *tuple_expr
        }
        other => panic!("expected a tuple access, got {other:?}"),
    };
    let inner = match expr(&ctx, member).0 {
        Expr::UnresolvedMemberAccess { object: Some(o), member_name, items: None, .. } => {
            assert_eq!(s(&member_name.name), "c");
            *o
        }
        other => panic!("expected a member access, got {other:?}"),
    };
    match expr(&ctx, inner).0 {
        Expr::UnresolvedMemberAccess { member_name, items: Some(items), .. } => {
            assert_eq!(s(&member_name.name), "b");
            assert_eq!(items.len(), 2);
            assert_eq!(frag(&p, &expr(&ctx, items[0]).1), "1");
            assert_eq!(frag(&p, &expr(&ctx, items[1]).1), "2");
        }
        other => panic!("expected a member access with items, got {other:?}"),
    }
}

#[test]
fn test_struct_attr_defaults_and_types() {
    let p = ParserContext::new("let a: Number = 1; var b");
    let mut ctx = IrCtx::new();
    let (_, attrs) = p.struct_attrs(&mut ctx, 0).unwrap();
    assert_eq!(attrs.len(), 2);
    assert_eq!(frag(&p, &attrs[0].span), "let a: Number = 1");
    let d = attrs[0].default_value.unwrap();
    assert_eq!(frag(&p, &expr(&ctx, d).1), "1");
    assert!(matches!(ctx.types.types[attrs[1].type_sig.id], TypeSignatureValue::TypeVariable(_)));
    assert_eq!(frag(&p, &attrs[1].span), "var b");
}

#[test]
fn test_var_decl_value_span() {
    let p = ParserContext::new("let x: Boolean = true");
    let mut ctx = IrCtx::new();
    let (_, v) = p.variable_decl(&mut ctx, 0).unwrap();
    match &ctx.nodes[v] {
        Node::VarDecl(d) => {
            assert_eq!(frag(&p, &expr(&ctx, d.value).1), "true");
            assert!(matches!(expr(&ctx, d.value).0, Expr::BoolLiteral(true)));
        }
        n => panic!("expected a variable, got {n:?}"),
    }
}
