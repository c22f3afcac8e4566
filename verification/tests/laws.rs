use std::collections::{HashMap, VecDeque};
use typewriter::ir::context::{IrCtx, TypeTable};
use typewriter::ir::node::{IdentKey, Node, Stmt};
use typewriter::ir::types::{BuiltinType, TypeSignature, TypeSignatureValue};
use typewriter::parser::parse_ast;
use typewriter::symbols::symbol_collector::SymbolCollector;
use typewriter::symbols::symbol_resolver::SymbolResolver;
use typewriter::symbols::symbol_table::symbol_table_zipper::SymbolTableZipper;
use typewriter::symbols::symbol_table::{SymbolTable, SymbolValueItem};
use typewriter::type_checker::coercion::{can_coerce_to, coerce};
use typewriter::type_checker::function_body_type_eval::{eval_func_body_type_sig, FunctionTypeError};
use typewriter::type_checker::type_inference::{insert_subst, lookup_subst, resolve_constraints};
use typewriter::type_checker::types_helpers::{type_check, types_match};
use typewriter::type_checker::{ExpectedType, FunctionError, TypeCheckerError, TypeConstraint};

fn named(s: &str) -> IdentKey {
    IdentKey::Named(s.chars().collect())
}

fn key_name(k: &IdentKey) -> Option<String> {
    match k {
        IdentKey::Named(n) => Some(n.iter().collect()),
        IdentKey::Anonymous(_) => None,
    }
}

#[test]
fn test_coerce_reflexive_and_untyped() {
    let mut types = TypeTable::new();
    let number = types.builtin(BuiltinType::Number);
    let string = types.builtin(BuiltinType::String);
    let untyped = types.builtin(BuiltinType::Untyped);
    assert!(can_coerce_to(number, number, &types));
    assert_eq!(coerce(number, number, &types), Some(number));
    assert_eq!(coerce(untyped, number, &types), Some(number));
    assert_eq!(coerce(number, untyped, &types), Some(number));
    assert_eq!(coerce(number, string, &types), None);
    let pair = types.intern(TypeSignatureValue::Tuple(vec![untyped, string]));
    let pair2 = types.intern(TypeSignatureValue::Tuple(vec![number, string]));
    assert_eq!(coerce(pair, pair2, &types), Some(pair2));
    assert_eq!(coerce(pair2, pair, &types), Some(pair2));
}

#[test]
fn test_intern_same_shape_same_reference() {
    let mut types = TypeTable::new();
    let number = types.builtin(BuiltinType::Number);
    let a = types.intern(TypeSignatureValue::Tuple(vec![number, number]));
    let len = types.types.len();
    let b = types.intern(TypeSignatureValue::Tuple(vec![number, number]));
    assert_eq!(a, b);
    assert_eq!(types.types.len(), len);
    let c = types.intern(TypeSignatureValue::Tuple(vec![number]));
    assert_ne!(a, c);
}

#[test]
fn test_types_match() {
    let types = TypeTable::new();
    let number = types.builtin(BuiltinType::Number);
    let boolean = types.builtin(BuiltinType::Boolean);
    assert_eq!(types_match(&types, number, number).unwrap(), number);
    match types_match(&types, number, boolean) {
        Err(TypeCheckerError::TypeSignatureMismatch { type_sig, expr_type }) => {
            assert_eq!(type_sig, number);
            assert_eq!(expr_type, boolean);
        }
        other => panic!("expected a mismatch, got {other:?}"),
    }
}

#[test]
fn test_exit_undoes_enter() {
    let mut ast = parse_ast("func f() { let a = 1 }; let b = 2").unwrap();
    let table = SymbolCollector::new().collect(&mut ast.ctx, &ast.stmts).unwrap();
    let mut z = SymbolTableZipper::new(table);
    let scopes_before: Vec<Option<String>> = z.cursor.scopes.iter().map(|(k, _)| key_name(k)).collect();
    let globals_before = z.cursor.scope_global_table.len();
    z.enter_scope(&named("f")).unwrap();
    assert_eq!(z.breadcrumb.len(), 1);
    assert_eq!(z.cursor.ordered_symbols.len(), 1);
    z.exit_scope();
    assert_eq!(z.breadcrumb.len(), 0);
    let scopes_after: Vec<Option<String>> = z.cursor.scopes.iter().map(|(k, _)| key_name(k)).collect();
    assert_eq!(scopes_before, scopes_after);
    assert_eq!(globals_before, z.cursor.scope_global_table.len());
    assert!(z.enter_scope(&named("g")).is_err());
}

#[test]
fn test_lookup_sees_variables_after_declaration() {
    let mut ast = parse_ast("let x = 1").unwrap();
    let table = SymbolCollector::new().collect(&mut ast.ctx, &ast.stmts).unwrap();
    let mut z = SymbolTableZipper::new(table);
    assert!(z.lookup(&ast.ctx, &named("x")).is_none());
    z.visit_next_symbol();
    let s = z.lookup(&ast.ctx, &named("x")).unwrap();
    assert!(matches!(s.item(&ast.ctx), Some(SymbolValueItem::VarDecl(_))));
    assert_eq!(s.describe_type(&ast.ctx), "variable");
    let n = z.lookup(&ast.ctx, &named("Number")).unwrap();
    assert_eq!(n.describe_type(&ast.ctx), "builtin type");
}

#[test]
fn test_insert_then_lookup() {
    let mut ast = parse_ast("struct S {}").unwrap();
    let d = match &ast.ctx.nodes[ast.stmts[0]] {
        Node::Stmt(Stmt::StructDecl(d), _) => *d,
        n => panic!("expected a struct declaration, got {n:?}"),
    };
    let mut table = SymbolTable::new();
    let s = table.insert(&mut ast.ctx, SymbolValueItem::StructDecl(d)).unwrap();
    assert_eq!(table.lookup_global_table(&named("S")).map(|v| v.index()), Some(s.index()));
    assert!(table.lookup_global_table(&named("T")).is_none());
    assert!(table.insert(&mut ast.ctx, SymbolValueItem::StructDecl(d)).is_err());
}

#[test]
fn test_symbol_indices_grow() {
    let mut ctx = IrCtx::new();
    let mut table = SymbolTable::new();
    let a = table.insert(&mut ctx, SymbolValueItem::BuiltinType(BuiltinType::Number)).unwrap();
    let b = table.insert(&mut ctx, SymbolValueItem::BuiltinType(BuiltinType::String)).unwrap();
    assert_eq!(a.index() + 1, b.index());
    assert!(matches!(b.item(&ctx), Some(SymbolValueItem::BuiltinType(BuiltinType::String))));
}

#[test]
fn test_substitution_lookup_after_insert() {
    let mut s: HashMap<usize, TypeSignature> = HashMap::new();
    let v = TypeSignature { id: 7 };
    let w = TypeSignature { id: 8 };
    assert_eq!(lookup_subst(&s, v), v);
    insert_subst(&mut s, v, TypeSignature { id: 1 });
    insert_subst(&mut s, v, TypeSignature { id: 2 });
    insert_subst(&mut s, w, TypeSignature { id: 3 });
    assert_eq!(lookup_subst(&s, v), TypeSignature { id: 2 });
    assert_eq!(lookup_subst(&s, w), TypeSignature { id: 3 });
    assert_eq!(s.len(), 2);
}

#[test]
fn test_resolve_constraints() {
    let mut types = TypeTable::new();
    let number = types.builtin(BuiltinType::Number);
    let boolean = types.builtin(BuiltinType::Boolean);
    let v = types.new_type_var();
    let s = resolve_constraints(&types, VecDeque::from(vec![TypeConstraint(v, number), TypeConstraint(v, number)]), usize::MAX).unwrap();
    assert_eq!(lookup_subst(&s, v), number);
    match resolve_constraints(&types, VecDeque::from(vec![TypeConstraint(v, number), TypeConstraint(v, boolean)]), usize::MAX) {
        Err(TypeCheckerError::ConflictingTypes(a, b)) => {
            assert_eq!(a, number);
            assert_eq!(b, boolean);
        }
        other => panic!("expected conflicting types, got {other:?}"),
    }
    let w = types.new_type_var();
    assert!(matches!(
        resolve_constraints(&types, VecDeque::from(vec![TypeConstraint(v, w)]), usize::MAX),
        Err(TypeCheckerError::UndeterminableTypes(_))
    ));
    let f1 = types.intern(TypeSignatureValue::Function { args: vec![number], return_type: number });
    let f2 = types.intern(TypeSignatureValue::Function { args: vec![], return_type: number });
    assert!(matches!(
        resolve_constraints(&types, VecDeque::from(vec![TypeConstraint(f1, f2)]), usize::MAX),
        Err(TypeCheckerError::FunctionError(FunctionError::ArgCountMismatch(_, _)))
    ));
}

#[test]
fn test_expected_type_name() {
    assert_eq!(ExpectedType::Enum.name(), "enum");
    assert_eq!(ExpectedType::Struct.name(), "struct");
}

fn resolved(src: &str) -> (typewriter::parser::module::AST, SymbolResolver) {
    let mut ast = parse_ast(src).unwrap();
    let table = SymbolCollector::new().collect(&mut ast.ctx, &ast.stmts).unwrap();
    let mut resolver = SymbolResolver::new(table);
    resolver.resolve(&mut ast.ctx, &ast.stmts).unwrap();
    (ast, resolver)
}

#[test]
fn test_type_check_variable() {
    let (mut ast, mut resolver) = resolved("let x: Number = 1; let y: String = 2");
    resolver.symbols.reset();
    let vars: Vec<usize> = ast
        .stmts
        .iter()
        .filter_map(|s| match &ast.ctx.nodes[*s] {
            Node::Stmt(Stmt::VariableDecl(v), _) => Some(*v),
            _ => None,
        })
        .collect();
    resolver.symbols.visit_next_symbol();
    assert!(type_check(&mut ast.ctx, &resolver.symbols, vars[0]).is_ok());
    resolver.symbols.visit_next_symbol();
    assert!(matches!(
        type_check(&mut ast.ctx, &resolver.symbols, vars[1]),
        Err(TypeCheckerError::TypeSignatureMismatch { .. })
    ));
}

#[test]
fn test_func_body_type() {
    let (mut ast, mut resolver) = resolved("func f() -> Number { let a = 1; return a }; func g() -> Number { return true }");
    resolver.symbols.reset();
    let funcs: Vec<usize> = ast
        .stmts
        .iter()
        .filter_map(|s| match &ast.ctx.nodes[*s] {
            Node::Stmt(Stmt::FunctionDecl(f), _) => Some(*f),
            _ => None,
        })
        .collect();
    let mut z = resolver.symbols;
    z.enter_scope(&named("f")).unwrap();
    let t = eval_func_body_type_sig(&mut ast.ctx, &mut z, funcs[0]).unwrap();
    assert_eq!(t, BuiltinType::Number.type_sig());
    z.exit_scope();
    z.enter_scope(&named("g")).unwrap();
    assert!(matches!(
        eval_func_body_type_sig(&mut ast.ctx, &mut z, funcs[1]),
        Err(FunctionTypeError::ConflictingReturnTypes(_, _, _))
    ));
}

#[test]
fn test_type_check_nested_tuple_access() {
    let (mut ast, resolver) = resolved("let t = (1, (true, \"s\")); let u: Boolean = t.1.0");
    let mut checker = typewriter::type_checker::types_walker::TypeChecker::new(resolver);
    let r = checker.type_check(&mut ast.ctx, &ast.stmts);
    assert!(r.is_ok(), "{r:?}");
}

#[test]
fn test_resolve_constraints_steps() {
    let mut types = TypeTable::new();
    let number = types.builtin(BuiltinType::Number);
    let v = types.new_type_var();
    let w = types.new_type_var();
    // nothing to solve
    assert_eq!(resolve_constraints(&types, VecDeque::from(vec![]), 0).unwrap().len(), 0);
    // no steps left: the queue comes back
    match resolve_constraints(&types, VecDeque::from(vec![TypeConstraint(v, number)]), 0) {
        Err(TypeCheckerError::UnresolvableTypeConstraints(rest)) => {
            assert_eq!(rest, VecDeque::from(vec![TypeConstraint(v, number)]));
        }
        other => panic!("expected unresolvable constraints, got {other:?}"),
    }
    // two variables wait until one of them is known
    let s = resolve_constraints(&types, VecDeque::from(vec![TypeConstraint(v, w), TypeConstraint(w, number)]), usize::MAX).unwrap();
    assert_eq!(lookup_subst(&s, v), number);
    assert_eq!(lookup_subst(&s, w), number);
    // tuples are solved item by item
    let tv = types.intern(TypeSignatureValue::Tuple(vec![v]));
    let tn = types.intern(TypeSignatureValue::Tuple(vec![number]));
    let s = resolve_constraints(&types, VecDeque::from(vec![TypeConstraint(tv, tn)]), usize::MAX).unwrap();
    assert_eq!(lookup_subst(&s, v), number);
}

#[test]
fn function_body_type_eval_test_func_return_typecheck() {
    let (mut ast, mut resolver) = resolved("func test() -> Number { return false }");
    resolver.symbols.reset();
    let f = match &ast.ctx.nodes[ast.stmts[0]] {
        Node::Stmt(Stmt::FunctionDecl(f), _) => *f,
        n => panic!("expected a function declaration, got {n:?}"),
    };
    let mut z = resolver.symbols;
    z.enter_scope(&named("test")).unwrap();
    match eval_func_body_type_sig(&mut ast.ctx, &mut z, f) {
        Err(FunctionTypeError::ConflictingReturnTypes(_, a, b)) => {
            assert_eq!(a, BuiltinType::Number.type_sig());
            assert_eq!(b, BuiltinType::Boolean.type_sig());
        }
        other => panic!("expected conflicting return types, got {other:?}"),
    }
}

#[test]
fn function_type_test_func_return_typecheck() {
    let (mut ast, mut resolver) = resolved("func test() -> Number { return false }");
    resolver.symbols.reset();
    let f = match &ast.ctx.nodes[ast.stmts[0]] {
        Node::Stmt(Stmt::FunctionDecl(f), _) => *f,
        n => panic!("expected a function declaration, got {n:?}"),
    };
    let mut z = resolver.symbols;
    z.enter_scope(&named("test")).unwrap();
    match eval_func_body_type_sig(&mut ast.ctx, &mut z, f) {
        Err(FunctionTypeError::ConflictingReturnTypes(_, a, b)) => {
            assert_eq!(a, BuiltinType::Number.type_sig());
            assert_eq!(b, BuiltinType::Boolean.type_sig());
        }
        other => panic!("expected conflicting return types, got {other:?}"),
    }
}

#[test]
fn test_coercion_by_shape() {
    let mut types = TypeTable::new();
    let number = types.builtin(BuiltinType::Number);
    let string = types.builtin(BuiltinType::String);
    let untyped = types.builtin(BuiltinType::Untyped);
    let loose = types.intern(TypeSignatureValue::Tuple(vec![untyped, number]));
    let tight = types.intern(TypeSignatureValue::Tuple(vec![string, number]));
    // tuples item by item, the untyped type to anything
    assert!(can_coerce_to(loose, tight, &types));
    assert!(!can_coerce_to(tight, loose, &types));
    // the same shape is the same reference, and coerces to itself
    let again = types.intern(TypeSignatureValue::Tuple(vec![string, number]));
    assert_eq!(again, tight);
    assert!(can_coerce_to(tight, again, &types));
    assert!(!can_coerce_to(number, string, &types));
}
