use typewriter::ir::node::{Ident, Span};
use typewriter::symbols::symbol_resolver::resolve_ident;
use typewriter::symbols::symbol_table::SymbolValueItem;
use typewriter::symbols::symbol_table::symbol_table_zipper::SymbolTableZipper;
use typewriter::ir::node::{Expr, Node, Stmt};
use typewriter::ir::types::TypeSignatureValue;
use typewriter::parser::module::AST;
use typewriter::parser::parse_ast;
use typewriter::symbols::symbol_collector::SymbolCollector;
use typewriter::symbols::symbol_resolver::SymbolResolver;
use typewriter::type_checker::SymbolResolutionError;
use typewriter::ir::types::TypeEvalError;

fn resolve_symbols(src: &str) -> (AST, Result<(), SymbolResolutionError>) {
    let mut ast = parse_ast(src).unwrap();
    let table = SymbolCollector::new().collect(&mut ast.ctx, &ast.stmts).unwrap();
    let mut resolver = SymbolResolver::new(table);
    let r = resolver.resolve(&mut ast.ctx, &ast.stmts);
    (ast, r)
}

#[test]
fn test_self_referencing_var_decl() {
    let (_, r) = resolve_symbols("let x = x");
    assert!(matches!(r, Err(SymbolResolutionError::RecursiveDeclaration { var_decl: _, ident_span: _ })));
}

#[test]
fn test_indirect_self_referencing_var_decl() {
    let (_, r) = resolve_symbols("let x = (123, x)");
    assert!(matches!(r, Err(SymbolResolutionError::RecursiveDeclaration { var_decl: _, ident_span: _ })));
}

#[test]
fn test_resolve_ok_program() {
    let (_, r) = resolve_symbols("let a = 1; let b = a; func f(x: Number) -> Number { return x }");
    assert!(r.is_ok(), "{r:?}");
}

#[test]
fn test_resolve_unknown_ident() {
    let (_, r) = resolve_symbols("let a = b");
    match r {
        Err(SymbolResolutionError::TypeEval(TypeEvalError::UnknownIdent(id))) => {
            assert_eq!(id.name.iter().collect::<String>(), "b");
        }
        other => panic!("expected an unknown name, got {other:?}"),
    }
}

#[test]
fn test_resolve_variable_before_declaration() {
    let (_, r) = resolve_symbols("let a = b; let b = 1");
    assert!(matches!(r, Err(SymbolResolutionError::TypeEval(TypeEvalError::UnknownIdent(_)))));
}

#[test]
fn test_resolve_function_before_declaration() {
    let (_, r) = resolve_symbols("let a = f; func f() {}");
    assert!(r.is_ok(), "{r:?}");
}

#[test]
fn test_resolve_type_name_to_struct() {
    let (ast, r) = resolve_symbols("struct Foo { let a: Number }; let x: Foo = Foo { a: 1 }");
    assert!(r.is_ok(), "{r:?}");
    let var = ast
        .stmts
        .iter()
        .find_map(|s| match &ast.ctx.nodes[*s] {
            Node::Stmt(Stmt::VariableDecl(v), _) => Some(*v),
            _ => None,
        })
        .unwrap();
    match &ast.ctx.nodes[var] {
        Node::VarDecl(v) => match &ast.ctx.types.types[v.type_sig.id] {
            TypeSignatureValue::Struct { name } => assert_eq!(name.iter().collect::<String>(), "Foo"),
            t => panic!("expected a struct type, got {t:?}"),
        },
        _ => panic!("expected a variable"),
    }
}

#[test]
fn test_resolve_unknown_struct_attribute() {
    let (_, r) = resolve_symbols("struct Foo { let a: Number }; let x = Foo { b: 1 }");
    assert!(matches!(r, Err(SymbolResolutionError::TypeEval(TypeEvalError::UnknownIdent(_)))));
}

#[test]
fn test_resolve_member_access_on_struct() {
    let (ast, r) = resolve_symbols("struct Foo { let a: Number }; let x = Foo { a: 1 }; let y = x.a");
    assert!(r.is_ok(), "{r:?}");
    let found = ast.ctx.nodes.iter().any(|n| matches!(n, Node::Expr(Expr::StructAccess { .. }, _)));
    assert!(found);
}

#[test]
fn test_resolve_member_access_on_non_struct() {
    let (_, r) = resolve_symbols("let x = 1; let y = x.a");
    assert!(matches!(r, Err(SymbolResolutionError::InvalidMemberAccessType { .. })));
}

#[test]
fn test_resolve_enum_item_types() {
    let (ast, r) = resolve_symbols("struct Foo { let a: Number }; enum E { A(Foo, Number); B }");
    assert!(r.is_ok(), "{r:?}");
    let en = ast
        .ctx
        .nodes
        .iter()
        .find_map(|n| match n {
            Node::Enum(e) => Some(e),
            _ => None,
        })
        .unwrap();
    assert_eq!(en.values.len(), 2);
    assert_eq!(en.values[0].items.len(), 2);
    assert!(en.values[1].items.is_empty());
    match &ast.ctx.types.types[en.values[0].items[0].id] {
        TypeSignatureValue::Struct { name } => assert_eq!(name.iter().collect::<String>(), "Foo"),
        t => panic!("expected a struct type, got {t:?}"),
    }
    assert!(matches!(&ast.ctx.types.types[en.values[0].items[1].id], TypeSignatureValue::Builtin(_)));
}

#[test]
fn test_resolve_enum_unknown_item_type() {
    let (_, r) = resolve_symbols("enum E { A(Missing) }");
    assert!(matches!(r, Err(SymbolResolutionError::TypeEval(TypeEvalError::UnknownIdent(_)))));
}

#[test]
fn test_resolve_ident_gives_symbol() {
    let mut ast = parse_ast("let x = 1").unwrap();
    let table = SymbolCollector::new().collect(&mut ast.ctx, &ast.stmts).unwrap();
    let mut z = SymbolTableZipper::new(table);
    let id = Ident { name: vec!['x'], span: Span { start: 0, end: 1, line: 1, offset: 0 } };
    assert!(matches!(
        resolve_ident(&ast.ctx, &z, &vec![], &id),
        Err(SymbolResolutionError::TypeEval(TypeEvalError::UnknownIdent(_)))
    ));
    z.visit_next_symbol();
    let s = resolve_ident(&ast.ctx, &z, &vec![], &id).unwrap();
    assert!(matches!(s.item(&ast.ctx), Some(SymbolValueItem::VarDecl(_))));
}
