use typewriter::ir::node::{Expr, IdentKey, Node};
use typewriter::parser::parse_ast;
use typewriter::symbols::symbol_collector::SymbolCollector as ScopeCollector;
use typewriter::symbols::symbol_table::{SymbolCollectionError, SymbolTable, SymbolValueItem};
use typewriter::symbols::symbol_walker::SymbolCollector;
use typewriter::symbols::SymbolsError;

fn key_name(k: &IdentKey) -> Option<String> {
    match k {
        IdentKey::Named(n) => Some(n.iter().collect()),
        IdentKey::Anonymous(_) => None,
    }
}

#[test]
fn test_existing_symbol_error() {
    let ast = parse_ast("let x = 2; let x = 3").unwrap();
    let collector = SymbolCollector::new();
    let result = collector.collect(&ast.ctx, &ast.stmts);
    assert!(result.is_err());
}

#[test]
fn test_flat_table_distinct_names() {
    let ast = parse_ast("let x = 2; let y = 3").unwrap();
    let collector = SymbolCollector::new();
    let table = collector.collect(&ast.ctx, &ast.stmts).unwrap();
    assert_eq!(table.table.len(), 2);
    let names: Vec<String> = table.table.iter().map(|(n, _)| n.name.iter().collect()).collect();
    assert_eq!(names, vec!["x".to_string(), "y".to_string()]);
}

#[test]
fn test_flat_table_duplicate_error_names_variable() {
    let ast = parse_ast("let a = 1; let a = 2").unwrap();
    match SymbolCollector::new().collect(&ast.ctx, &ast.stmts) {
        Err(SymbolsError::SymbolAlreadyExistsInScope(n)) => {
            assert_eq!(n.name.iter().collect::<String>(), "a");
        }
        other => panic!("expected a duplicate error, got {other:?}"),
    }
}

#[test]
fn test_locate_ordered_symbol() {
    let mut ast = parse_ast("let x: Boolean = true").unwrap();
    let symtable = ScopeCollector::new().collect(&mut ast.ctx, &ast.stmts).unwrap();

    let sym_val = symtable.ordered_symbols[0];
    let item = sym_val.item(&ast.ctx).unwrap();

    assert_eq!(key_name(&item.key(&ast.ctx)), Some("x".to_string()));

    match item {
        SymbolValueItem::VarDecl(var_decl) => match &ast.ctx.nodes[var_decl] {
            Node::VarDecl(v) => {
                assert!(matches!(ast.ctx.nodes[v.value], Node::Expr(Expr::BoolLiteral(true), _)));
            }
            _ => assert!(false),
        },
        _ => assert!(false),
    }
}

#[test]
fn test_collect_builtins_first() {
    let mut ast = parse_ast("let x = 1").unwrap();
    let symtable = ScopeCollector::new().collect(&mut ast.ctx, &ast.stmts).unwrap();
    let names: Vec<Option<String>> = symtable.scope_global_table.iter().map(|(k, _)| key_name(k)).collect();
    assert_eq!(
        names,
        vec![
            Some("String".to_string()),
            Some("Number".to_string()),
            Some("Boolean".to_string()),
            Some("Void".to_string()),
            Some("Untyped".to_string()),
        ]
    );
}

#[test]
fn test_collect_duplicate_function() {
    let mut ast = parse_ast("func f() {}; func f() {}").unwrap();
    let result = ScopeCollector::new().collect(&mut ast.ctx, &ast.stmts);
    assert!(result.is_err());
}

#[test]
fn test_collect_variable_shadowing() {
    let mut ast = parse_ast("let x = 2; let x = true").unwrap();
    let symtable = ScopeCollector::new().collect(&mut ast.ctx, &ast.stmts).unwrap();
    assert_eq!(symtable.ordered_symbols.len(), 2);
}

#[test]
fn test_collect_function_scope() {
    let mut ast = parse_ast("func f(a: Number) { let b = a }").unwrap();
    let symtable = ScopeCollector::new().collect(&mut ast.ctx, &ast.stmts).unwrap();
    assert_eq!(symtable.scopes.len(), 1);
    assert_eq!(key_name(&symtable.scopes[0].0), Some("f".to_string()));
    let inner = &symtable.scopes[0].1;
    assert_eq!(inner.scope_global_table.len(), 1);
    assert_eq!(key_name(&inner.scope_global_table[0].0), Some("a".to_string()));
    assert_eq!(inner.ordered_symbols.len(), 1);
}

#[test]
fn test_unwrap_struct_and_enum_symbols() {
    let mut ast = parse_ast("struct Point { let x: Number }\nenum Color { red; green }").unwrap();
    let symtable = ScopeCollector::new().collect(&mut ast.ctx, &ast.stmts).unwrap();
    let point = symtable.lookup_global_table(&IdentKey::Named("Point".chars().collect())).unwrap();
    let d = point.unwrap_struct(&ast.ctx);
    assert!(matches!(ast.ctx.nodes[d], Node::Struct(_)));
    let color = symtable.lookup_global_table(&IdentKey::Named("Color".chars().collect())).unwrap();
    let e = color.unwrap_enum(&ast.ctx);
    assert!(matches!(ast.ctx.nodes[e], Node::Enum(_)));
}

#[test]
fn test_pop_ordered_symbol() {
    let mut ast = parse_ast("let a = 1; let b = 2").unwrap();
    let mut symtable = ScopeCollector::new().collect(&mut ast.ctx, &ast.stmts).unwrap();
    let first = symtable.pop_ordered_symbol().unwrap();
    assert_eq!(key_name(&first.item(&ast.ctx).unwrap().key(&ast.ctx)), Some("a".to_string()));
    let second = symtable.pop_ordered_symbol().unwrap();
    assert_eq!(key_name(&second.item(&ast.ctx).unwrap().key(&ast.ctx)), Some("b".to_string()));
    assert!(symtable.pop_ordered_symbol().is_none());
}

#[test]
fn test_scope_collector_duplicate_declarations() {
    let mut ast = parse_ast("func f() { return 1 }\nfunc f() { return 2 }").unwrap();
    assert!(ScopeCollector::new().collect(&mut ast.ctx, &ast.stmts).is_err());
    let mut ast = parse_ast("struct Number { let x: String }").unwrap();
    assert!(ScopeCollector::new().collect(&mut ast.ctx, &ast.stmts).is_err());
    let mut ast = parse_ast("func f() { return 1 }\nstruct G { let x: String }").unwrap();
    assert!(ScopeCollector::new().collect(&mut ast.ctx, &ast.stmts).is_ok());
}

#[test]
fn test_scope_collector_duplicates_in_nested_scopes() {
    let mut ast = parse_ast("func f(a: Number, a: String) { return a }").unwrap();
    assert!(ScopeCollector::new().collect(&mut ast.ctx, &ast.stmts).is_err());
    let mut ast = parse_ast("struct S { let a: Number; let a: String }").unwrap();
    assert!(ScopeCollector::new().collect(&mut ast.ctx, &ast.stmts).is_err());
    let mut ast = parse_ast("func f() {\nfunc g() { return 1 }\nfunc g() { return 2 }\n}").unwrap();
    assert!(ScopeCollector::new().collect(&mut ast.ctx, &ast.stmts).is_err());
}

#[test]
fn test_scope_collector_clashes_at_any_depth() {
    let refused = [
        "func f(a: Number) { func a() { return 1 } }",
        "let x = (b) { func g() { return 1 }; func g() { return 2 } }",
        "struct S { let a = (x, x) { return x } }",
        "f((y) { struct T { let u: Number; let u: Number } })",
    ];
    for src in refused {
        let mut ast = parse_ast(src).unwrap();
        assert!(ScopeCollector::new().collect(&mut ast.ctx, &ast.stmts).is_err(), "{src:?} should be refused");
    }
    let mut ast = parse_ast("func f(a: Number) { let a = 1 }").unwrap();
    assert!(ScopeCollector::new().collect(&mut ast.ctx, &ast.stmts).is_ok());
}

#[test]
fn test_scope_collector_same_name_in_other_scopes() {
    let accepted = [
        "func f() { return 1 }; func g() { func f() { return 2 } }",
        "struct A { let a: Number }; func g(A) { return A }",
        "let x = (a) { return a }; let y = (a) { return a }",
    ];
    for src in accepted {
        let mut ast = parse_ast(src).unwrap();
        let r = ScopeCollector::new().collect(&mut ast.ctx, &ast.stmts);
        assert!(r.is_ok(), "{src:?} should be accepted: {r:?}");
    }
}

#[test]
fn test_insert_scope_twice() {
    let mut t = SymbolTable::new();
    assert!(t.insert_scope(IdentKey::Named(vec!['f']), SymbolTable::new()).is_ok());
    match t.insert_scope(IdentKey::Named(vec!['f']), SymbolTable::new()) {
        Err(SymbolCollectionError::ScopeNotFound(IdentKey::Named(n))) => assert_eq!(n, vec!['f']),
        other => panic!("expected the name to be reported, got {other:?}"),
    }
    assert_eq!(t.scopes.len(), 1);
}

#[test]
fn test_remove_scope() {
    let mut t = SymbolTable::new();
    assert!(t.insert_scope(IdentKey::Named(vec!['f']), SymbolTable::new()).is_ok());
    assert!(t.insert_scope(IdentKey::Named(vec!['g']), SymbolTable::new()).is_ok());
    assert!(t.remove_scope(&IdentKey::Named(vec!['h'])).is_none());
    assert_eq!(t.scopes.len(), 2);
    assert!(t.remove_scope(&IdentKey::Named(vec!['f'])).is_some());
    assert_eq!(t.scopes.len(), 1);
    assert!(matches!(&t.scopes[0].0, IdentKey::Named(n) if n == &vec!['g']));
    assert!(t.remove_scope(&IdentKey::Named(vec!['f'])).is_none());
    assert!(t.insert_scope(IdentKey::Named(vec!['f']), SymbolTable::new()).is_ok());
}
