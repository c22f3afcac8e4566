use typewriter::pipeline::{check_program, CompileError};
use typewriter::ir::types::{BuiltinType, TypeEvalError, TypeSignature};
use typewriter::parser::module::AST;
use typewriter::parser::parse_ast;
use typewriter::symbols::symbol_collector::SymbolCollector;
use typewriter::symbols::symbol_resolver::SymbolResolver;
use typewriter::type_checker::types_walker::TypeChecker;
use typewriter::type_checker::{AssignmentError, FunctionError, TypeCheckerError};

fn type_check(src: &str) -> (AST, Result<(), TypeCheckerError>) {
    let mut ast = parse_ast(src).unwrap();
    let table = SymbolCollector::new().collect(&mut ast.ctx, &ast.stmts).unwrap();
    let mut resolver = SymbolResolver::new(table);
    if let Err(e) = resolver.resolve(&mut ast.ctx, &ast.stmts) {
        return (ast, Err(TypeCheckerError::SymbolResolutionError(e)));
    }
    let mut checker = TypeChecker::new(resolver);
    let r = checker.type_check(&mut ast.ctx, &ast.stmts);
    (ast, r)
}

fn builtin(b: BuiltinType) -> TypeSignature {
    b.type_sig()
}

fn assert_type_mismatch(r: Result<(), TypeCheckerError>, type_a: TypeSignature, type_b: TypeSignature) {
    match r {
        Err(TypeCheckerError::ConflictingTypes(a, b)) => {
            assert!(type_a == a || type_a == b, "expected A did not match");
            assert!(type_b == a || type_b == b, "expected B did not match");
            assert!((a == type_a && b == type_b) || (a == type_b && b == type_a));
        }
        val => panic!("expected conflicting type error, got {val:?}"),
    }
}

#[test]
fn test_var_decl_mismatched_types() {
    let (_, r) = type_check("let x: String = 2");
    assert_type_mismatch(r, builtin(BuiltinType::String), builtin(BuiltinType::Number));
}

#[test]
fn test_assign_variable_types_mismatch() {
    let (_, r) = type_check("var foo = 1; foo = false");
    assert_type_mismatch(r, builtin(BuiltinType::Number), builtin(BuiltinType::Boolean));
}

#[test]
fn test_var_decl_var() {
    let (_, r) = type_check("let a = true; let b: Boolean = a");
    assert!(r.is_ok(), "{r:?}");
}

#[test]
fn test_struct_access_mismatched_types() {
    let (_, r) = type_check(
        "\
        struct Test { let attr: Number }
        let test = Test { attr: 123 }
        let wrong: Boolean = test.attr",
    );
    assert_type_mismatch(r, builtin(BuiltinType::Boolean), builtin(BuiltinType::Number));
}

#[test]
fn test_struct_decl_attr_mismatched_types() {
    let (_, r) = type_check("struct Test { let attr: String = true }");
    assert_type_mismatch(r, builtin(BuiltinType::String), builtin(BuiltinType::Boolean));
}

#[test]
fn test_func_decl_inside_struct() {
    let (_, r) = type_check(
        "struct Foo { let attr: () -> Number }
            let a = Foo { attr: () { return false } }",
    );
    assert_type_mismatch(r, builtin(BuiltinType::Number), builtin(BuiltinType::Boolean));
}

#[test]
fn test_call_non_function() {
    let (_, r) = type_check("let val = true; val()");
    match r {
        Err(TypeCheckerError::TypeEval(TypeEvalError::CallNonFunction(expr_type))) => {
            assert_eq!(expr_type, builtin(BuiltinType::Boolean))
        }
        other => panic!("expected a call of a non-function, got {other:?}"),
    }
}

#[test]
fn test_assign_func_call_mismatched_types() {
    let (_, r) = type_check("func f() { return 123 }; let x: Boolean = f()");
    assert_type_mismatch(r, builtin(BuiltinType::Number), builtin(BuiltinType::Boolean));
}

#[test]
fn type_inference_test_func_call_wrong_arg_type() {
    let (_, r) = type_check("func f(a: Number) {}; f(true)");
    assert_type_mismatch(r, builtin(BuiltinType::Number), builtin(BuiltinType::Boolean));
}

#[test]
fn type_inference_test_func_call_wrong_arg_amount() {
    let (_, r) = type_check("func f(a: Number) {}; f(2, 3)");
    assert!(matches!(r, Err(TypeCheckerError::FunctionError(FunctionError::FuncCallWrongArgAmount { .. }))));
}

#[test]
fn type_inference_test_func_return_typecheck() {
    let (_, r) = type_check("func test() -> Number { return false }");
    assert_type_mismatch(r, builtin(BuiltinType::Number), builtin(BuiltinType::Boolean));
}

#[test]
fn test_func_return_implicit_void() {
    let (_, r) = type_check("func test() -> Number { }");
    assert_type_mismatch(r, builtin(BuiltinType::Number), builtin(BuiltinType::Void));
}

#[test]
fn test_escape_block_typed() {
    let (_, r) = type_check("let a: Number = @{ 1 + 2 }");
    assert!(r.is_ok(), "{r:?}");
}

#[test]
fn test_escape_block_untyped() {
    let (_, r) = type_check("let a = @{ 1 + 2 }");
    assert!(matches!(r, Err(TypeCheckerError::UndeterminableTypes(_))), "{r:?}");
}

#[test]
fn test_escape_block_untyped_func() {
    let (_, r) = type_check("func foo() { return @{ 123 } }");
    assert!(matches!(r, Err(TypeCheckerError::UndeterminableTypes(_))), "{r:?}");
}

#[test]
fn check_assignment_test_assign_variable() {
    let (_, r) = type_check("var foo = 1; foo = 2");
    assert!(r.is_ok(), "{r:?}");
}

#[test]
fn check_assignment_test_assign_variable_immutable() {
    let (_, r) = type_check("let foo = 1; foo = 2");
    assert!(matches!(r, Err(TypeCheckerError::AssignmentError(_, AssignmentError::ImmutableAssignment(_)))), "{r:?}");
}

#[test]
fn check_assignment_test_assign_struct() {
    let (_, r) = type_check(
        "struct Foo { var attr: Number }
            var foo = Foo { attr: 1 }
            foo.attr = 2",
    );
    assert!(r.is_ok(), "{r:?}");
}

#[test]
fn test_assign_struct_immutable_attr() {
    let (_, r) = type_check(
        "struct Foo { let attr: Number }
            var foo = Foo { attr: 1 }
            foo.attr = 2",
    );
    assert!(r.is_err());
}

#[test]
fn check_assignment_test_assign_struct_immutable() {
    let (_, r) = type_check(
        "struct Foo { var attr: Number }
            let foo = Foo { attr: 1 }
            foo.attr = 2",
    );
    assert!(r.is_err());
}

#[test]
fn check_assignment_test_nested_struct_immutable() {
    let (_, r) = type_check(
        "
        struct Deep {
            var inner = false
        }

        struct Foo {
            let bar: Deep
        }

        let foo = Foo { bar: Deep {} }
        foo.bar.inner = true
        ",
    );
    assert!(r.is_err());
}

#[test]
fn test_enum_init_arg_count_mismatch() {
    let (_, r) = type_check(
        "
        enum Foo { bar(Number, Number) }\n\
        let x: Foo = .bar(1, 2, 3)
        ",
    );
    assert!(matches!(r, Err(TypeCheckerError::EnumInitArgCountMismatch(_, _))), "{r:?}");
}

#[test]
fn test_nested_implicit_enum() {
    let (_, r) = type_check(
        "
        enum A { inner(Number) }\n\
        enum B { outer(A) }\n\
        let x: B = .outer(.inner(42))
        ",
    );
    assert!(r.is_ok(), "{r:?}");
}

#[test]
fn test_non_ident_expr_builtin() {
    let (_, r) = type_check("String");
    assert!(matches!(r, Err(TypeCheckerError::IdentNotExpression(_, _))), "{r:?}");
}

#[test]
fn test_non_ident_expr_struct() {
    let (_, r) = type_check("struct Foo {}; let x = Foo");
    assert!(matches!(r, Err(TypeCheckerError::IdentNotExpression(_, _))), "{r:?}");
}

#[test]
fn test_var_decl_matching_types() {
    let (_, r) = type_check("let x: String = \"hello\"");
    assert!(r.is_ok(), "{r:?}");
}

#[test]
fn test_struct_init_default() {
    let (_, r) = type_check(
        "\
        struct Test { let default = 34; let noDefault: Number }
        let test = Test { noDefault: 123 }",
    );
    assert!(r.is_ok(), "{r:?}");
}

#[test]
fn test_struct_init_not_default() {
    let (_, r) = type_check(
        "\
        struct Test { let noDefault: Number }
        let test = Test {}",
    );
    assert!(r.is_err());
}

#[test]
fn test_escape_block_function_return() {
    let (_, r) = type_check("func f() -> Number { return @{ 1 + 2 } }");
    assert!(r.is_ok(), "{r:?}");
}

#[test]
fn test_escape_block_function_return_coerce() {
    let (_, r) = type_check("func f() -> Number { return @{ 1 + 2 }; return 2 }");
    assert!(r.is_ok(), "{r:?}");
}

#[test]
fn types_walker_test_decl_inside_scope() {
    let (_, r) = type_check("let f = () -> Boolean { let a = true; return a }");
    assert!(r.is_ok(), "{r:?}");
}

#[test]
fn types_walker_test_func_type_deduce() {
    let (_, r) = type_check("let f: (Boolean) -> Boolean = (val) { return val }");
    assert!(r.is_ok(), "{r:?}");
}

#[test]
fn test_check_program_phases() {
    assert!(check_program("let a = 5\nlet b: Number = a").is_ok());
    assert!(matches!(check_program("let = 5"), Err(CompileError::Parse(_))));
    assert!(matches!(check_program("let a = b"), Err(CompileError::Resolution(_))));
    assert!(matches!(check_program("let a: Number = true"), Err(CompileError::Types(_))));
}

#[test]
fn function_body_type_eval_test_decl_inside_scope() {
    let (_, r) = type_check("let f = () -> Boolean { let a = true; return a }");
    assert!(r.is_ok(), "{r:?}");
}

#[test]
fn function_body_type_eval_test_func_type_deduce() {
    let (_, r) = type_check("let f: (Boolean) -> Boolean = (val) { return val }");
    assert!(r.is_ok(), "{r:?}");
}

#[test]
fn function_type_test_decl_inside_scope() {
    let (_, r) = type_check("let f = () -> Boolean { let a = true; return a }");
    assert!(r.is_ok(), "{r:?}");
}

#[test]
fn test_method_call_checked_as_call() {
    let decl = "struct S { let f: (Number) -> Number }; let s = S { f: (x: Number) -> Number { return x } }";
    let (_, r) = type_check(&format!("{decl}; s.f(1)"));
    assert!(r.is_ok(), "{r:?}");
    let (_, r) = type_check(&format!("{decl}; s.f(1, 2)"));
    assert!(matches!(r, Err(TypeCheckerError::FunctionError(FunctionError::FuncCallWrongArgAmount { .. }))), "{r:?}");
    let (_, r) = type_check(&format!("{decl}; s.f(true)"));
    assert_type_mismatch(r, builtin(BuiltinType::Number), builtin(BuiltinType::Boolean));
    let (_, r) = type_check("struct T { let a: Number }; let t = T { a: 1 }; t.a(1)");
    assert!(matches!(r, Err(TypeCheckerError::TypeEval(TypeEvalError::CallNonFunction(_)))), "{r:?}");
}

#[test]
fn test_check_ast_phases() {
    let mut ast = parse_ast("struct A { let x: Number }; struct A { let y: Number }").unwrap();
    assert!(matches!(typewriter::pipeline::check_ast(&mut ast), Err(CompileError::Symbols(_))));
    let mut ast = parse_ast("let a: String = 1").unwrap();
    assert!(matches!(typewriter::pipeline::check_ast(&mut ast), Err(CompileError::Types(_))));
    let mut ast = parse_ast("let a = b").unwrap();
    assert!(matches!(typewriter::pipeline::check_ast(&mut ast), Err(CompileError::Resolution(_))));
    let mut ast = parse_ast("let a: Number = 1").unwrap();
    assert!(typewriter::pipeline::check_ast(&mut ast).is_ok());
}
