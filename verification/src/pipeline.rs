use vstd::prelude::*;

use crate::ir::node::NodeRef;
use crate::parser::grammar::{g_program, g_stmt_spans};
use crate::parser::module::AST;
use crate::parser::statement::{stmts_at, stmts_in_order, stmts_read, stmts_typed};
use crate::parser::{parse_ast, ws_end, ParserError, ParserErrorKind};
use crate::ir::context::IrCtx;
use crate::ir::ir_walker::{program_walked, walk_step, WalkState};
use crate::symbols::symbol_collector::{
    builtin_keys, builtins_filed, collect_post, filing_stmts, filled_ok, fits, keys_of, ordered_items, var_decls, SymbolCollector,
};
use crate::symbols::symbol_resolver::{resolution_result, resolve_post, resolving_start};
use crate::symbols::symbol_table::symbol_table_zipper::{zipper_ok, SymbolTableZipper};
use crate::symbols::symbol_table::{arena_ident, arena_items, SymbolTable};
use crate::type_checker::types_walker::{reset_to, round_limit, round_step, rounds_made, rounds_run, RoundState};
use crate::symbols::symbol_resolver::SymbolResolver;
use crate::symbols::symbol_table::SymbolCollectionError;
use crate::type_checker::types_walker::TypeChecker;
use crate::type_checker::{SymbolResolutionError, TypeCheckerError, UndeterminableType};

verus! {

/// The first error that checking a program runs into, by phase.
#[derive(Debug)]
pub enum CompileError {
    Parse(ParserError),
    Symbols(SymbolCollectionError),
    Resolution(SymbolResolutionError),
    Types(TypeCheckerError),
}

/// `ast` is a parse of `code`: its top-level statements are those that
/// the grammar finds in `code`, at their places, in order, each read as the
/// alternative the grammar picks there, with the names, values and types
/// that the parser's contracts give it.
#[verifier::opaque]
pub open spec fn parsed(code: Seq<char>, ast: AST) -> bool {
    &&& ast.wf()
    &&& stmts_in_order(ast.ctx.nodes@, ast.stmts@, ws_end(code, 0), code.len() as int)
    &&& stmts_at(ast.ctx.nodes@, ast.stmts@, g_stmt_spans(code, ws_end(code, 0)))
    &&& stmts_read(code, ast.ctx.nodes@, ast.stmts@)
    &&& stmts_typed(&ast.ctx, code, ast.stmts@)
}

/// The symbols of `ast` can be filed: no scope of it would hold a key twice.
pub open spec fn collectable(ast: AST) -> bool {
    fits(builtin_keys(), Seq::empty(), filing_stmts(ast.ctx.nodes@, ast.stmts@, ast.ctx.nodes@.len() as NodeRef))
}

/// Collecting the symbols of `a` leaves the context `c1` and gives `r`:
/// success exactly when they can be filed, with a table that files them.
#[verifier::opaque]
pub open spec fn symbols_collected(a: AST, c1: IrCtx, r: Result<SymbolTable, SymbolCollectionError>) -> bool {
    &&& collect_post(&c1, &a.ctx)
    &&& r matches Ok(t) ==> filled_ok(&c1, t) && builtins_filed(arena_items(c1.symbols), t)
        && ordered_items(arena_items(c1.symbols), t) == var_decls(a.ctx.nodes@, a.stmts@)
        && keys_of(t.scope_global_table@) == builtin_keys() + filing_stmts(a.ctx.nodes@, a.stmts@,
            a.ctx.nodes@.len() as NodeRef).symbols
        && keys_of(t.scopes@) == filing_stmts(a.ctx.nodes@, a.stmts@, a.ctx.nodes@.len() as NodeRef).scopes
    &&& (r is Ok <==> collectable(a))
}

/// Resolving the names of the statements `stmts` over `c1`, from the global
/// scope of the table `t`, leaves the symbols at `z` over `c2` and gives `r`:
/// the walk of the resolving pass over the program.
#[verifier::opaque]
pub open spec fn names_resolved(
    t: SymbolTable,
    c1: IrCtx,
    stmts: Seq<NodeRef>,
    z: SymbolTableZipper,
    c2: IrCtx,
    r: Result<(), SymbolResolutionError>,
) -> bool {
    &&& resolve_post(&c2, &c1)
    &&& exists|z0: SymbolTableZipper, s0: WalkState, ns: WalkState, r0: Result<(), TypeCheckerError>|
        #![trigger resolving_start(s0, z0), walk_step(ns, c2, r0)]
        z0.cursor == t && z0.visited_symbols == 0 && z0.breadcrumb@.len() == 0 && resolving_start(s0, z0)
            && program_walked(s0, c1, stmts, ns, c2, r0) && z == ns.symbols && r == resolution_result(r0)
}

/// Type checking the statements `stmts` over `c2`, with the symbols at `z`
/// reset, gives `r`: the rounds of the checker, the first called for, end
/// as `TypeChecker::type_check` says.
#[verifier::opaque]
pub open spec fn types_checked(z: SymbolTableZipper, c2: IrCtx, stmts: Seq<NodeRef>, r: Result<(), TypeCheckerError>) -> bool {
    exists|zc: SymbolTableZipper, k: nat, t: RoundState, r0: Result<(), TypeCheckerError>|
        #![trigger reset_to(z, zc), rounds_made(k), round_step(t, r0)]
        reset_to(z, zc) && rounds_run(k, (zc, true, Seq::<UndeterminableType>::empty(), c2), stmts, t, r0)
        && k <= round_limit(c2.nodes@.len())
        && (r0 is Err ==> r == r0)
        && (r0 is Ok ==> (!t.1 || k == round_limit(c2.nodes@.len())) && if t.1 || t.2.len() > 0 {
            r matches Err(TypeCheckerError::UndeterminableTypes(x)) && x@ == t.2
        } else {
            r is Ok
        })
}

/// What resolving names and then type checking the statements `stmts` over
/// `c1`, with the table `t` of their symbols, give: the error of the first
/// that fails.
#[verifier::opaque]
pub open spec fn after_collect(t: SymbolTable, c1: IrCtx, stmts: Seq<NodeRef>, r: Result<(), CompileError>) -> bool {
    exists|z: SymbolTableZipper, c2: IrCtx, r2: Result<(), SymbolResolutionError>|
        #![trigger names_resolved(t, c1, stmts, z, c2, r2)]
        names_resolved(t, c1, stmts, z, c2, r2) && match r2 {
            Err(e) => r == Err::<(), CompileError>(CompileError::Resolution(e)),
            Ok(_) => exists|r3: Result<(), TypeCheckerError>| #[trigger] types_checked(z, c2, stmts, r3)
                && r == match r3 {
                    Ok(_) => Ok::<(), CompileError>(()),
                    Err(e) => Err(CompileError::Types(e)),
                },
        }
}

/// What the phases after parsing give on the program `a`: collecting its
/// symbols, resolving its names, type checking it, the first that fails
/// deciding the error.
#[verifier::opaque]
pub open spec fn phases_run(a: AST, r: Result<(), CompileError>) -> bool {
    exists|c1: IrCtx, r1: Result<SymbolTable, SymbolCollectionError>|
        #![trigger symbols_collected(a, c1, r1)]
        symbols_collected(a, c1, r1) && match r1 {
            Err(e) => r == Err::<(), CompileError>(CompileError::Symbols(e)),
            Ok(t) => after_collect(t, c1, a.stmts@, r),
        }
}

/// Type checks the statements `stmts` over `ctx` with the symbols that
/// `resolver` resolved.
fn types_phase(resolver: SymbolResolver, ctx: &mut IrCtx, stmts: &Vec<NodeRef>) -> (r: Result<(), TypeCheckerError>)
    requires
        old(ctx).wf(),
        crate::parser::stmts_valid(old(ctx).nodes@, stmts@),
        zipper_ok(old(ctx).nodes@, arena_items(old(ctx).symbols), arena_ident(old(ctx).symbols), resolver.symbols),
    ensures
        types_checked(resolver.symbols, *old(ctx), stmts@, r),
{
    let ghost z = resolver.symbols;
    let ghost c2 = *ctx;
    let mut checker = TypeChecker::new(resolver);
    let ghost zc = checker.symbols;
    proof { assert(checker.immediate_undeterminable_types@ =~= Seq::<UndeterminableType>::empty()); }
    let ghost init: RoundState = (zc, checker.needs_rerun, checker.immediate_undeterminable_types@, c2);
    let r3 = checker.type_check(ctx, stmts);
    proof {
        assert(init == (zc, true, Seq::<UndeterminableType>::empty(), c2));
        let (k, t, r0) = choose|k: nat, t: RoundState, r0: Result<(), TypeCheckerError>|
            #![trigger rounds_run(k, init, stmts@, t, r0)]
            rounds_run(k, init, stmts@, t, r0)
            && k <= round_limit(c2.nodes@.len())
            && (r0 is Err ==> r3 == r0)
            && (r0 is Ok ==> (!t.1 || k == round_limit(c2.nodes@.len())) && if t.1 || t.2.len() > 0 {
                r3 matches Err(TypeCheckerError::UndeterminableTypes(x)) && x@ == t.2
            } else {
                r3 is Ok
            });
        assert(reset_to(z, zc));
        assert(rounds_made(k) && round_step(t, r0));
        reveal(types_checked);
    }
    r3
}

/// Resolves the names of the statements `stmts` over `ctx` with the table
/// `table` of their symbols, then type checks them.
fn names_phase(table: SymbolTable, ctx: &mut IrCtx, stmts: &Vec<NodeRef>) -> (r: Result<(), CompileError>)
    requires
        old(ctx).wf(),
        crate::parser::stmts_valid(old(ctx).nodes@, stmts@),
        filled_ok(old(ctx), table),
    ensures
        after_collect(table, *old(ctx), stmts@, r),
        !(r matches Err(CompileError::Parse(_))),
{
    let ghost t = table;
    let ghost c1 = *ctx;
    let mut resolver = SymbolResolver::new(table);
    let ghost z0 = resolver.symbols;
    let r2 = resolver.resolve(ctx, stmts);
    let ghost c2 = *ctx;
    let ghost z = resolver.symbols;
    proof {
        let (s0, ns, r0) = choose|s0: WalkState, ns: WalkState, r0: Result<(), TypeCheckerError>|
            #![trigger program_walked(s0, c1, stmts@, ns, c2, r0)]
            resolving_start(s0, z0) && program_walked(s0, c1, stmts@, ns, c2, r0)
                && z == ns.symbols && r2 == resolution_result(r0);
        assert(resolving_start(s0, z0) && walk_step(ns, c2, r0));
        assert(names_resolved(t, c1, stmts@, z, c2, r2)) by { reveal(names_resolved); }
    }
    match r2 {
        Ok(()) => {},
        Err(e) => {
            proof { reveal(after_collect); }
            return Err(CompileError::Resolution(e));
        },
    }
    proof {
        assert forall|k: int| 0 <= k < stmts@.len() implies crate::ir::node::is_stmt(
            ctx.nodes@,
            #[trigger] stmts@[k] as int,
        ) by {
            crate::ir::ir_walker::lemma_kinds_compat(ctx.nodes@, c1.nodes@, stmts@[k] as int);
        }
    }
    let r3 = types_phase(resolver, ctx, stmts);
    let r = match r3 {
        Ok(()) => Ok(()),
        Err(e) => Err(CompileError::Types(e)),
    };
    proof { reveal(after_collect); }
    r
}

/// Checks the parsed program `ast`: collects its symbols, resolves its
/// names and type checks it, stopping at the first phase that fails.
pub fn check_ast(ast: &mut AST) -> (r: Result<(), CompileError>)
    requires
        old(ast).wf(),
    ensures
        phases_run(*old(ast), r),
        !(r matches Err(CompileError::Parse(_))),
{
    let ghost a0 = *ast;
    let r1 = SymbolCollector::new().collect(&mut ast.ctx, &ast.stmts);
    let ghost c1 = ast.ctx;
    let ghost g1 = r1;
    proof { assert(symbols_collected(a0, c1, g1)) by { reveal(symbols_collected); } }
    let table = match r1 {
        Ok(t) => t,
        Err(e) => {
            proof { reveal(phases_run); }
            return Err(CompileError::Symbols(e));
        },
    };
    let r = names_phase(table, &mut ast.ctx, &ast.stmts);
    proof { reveal(phases_run); }
    r
}

/// Checks the program `code`: parses it, collects its symbols, resolves its
/// names and type checks it, stopping at the first phase that fails.
pub fn check_program(code: &str) -> (r: Result<(), CompileError>)
    ensures
        code@.len() >= usize::MAX - 1 ==> (r matches Err(CompileError::Parse(e)) && e.kind == ParserErrorKind::TooLarge),
        !g_program(code@) ==> r matches Err(CompileError::Parse(_)),
        r is Ok ==> g_program(code@),
        r matches Err(CompileError::Parse(e)) && e.kind != ParserErrorKind::TooLarge ==> !g_program(code@),
        r matches Err(CompileError::Parse(e)) && e.kind == ParserErrorKind::TooLarge ==> code@.len() >= usize::MAX - 1,
        r matches Err(CompileError::Parse(_)) <==> (!g_program(code@) || code@.len() >= usize::MAX - 1),
        !(r matches Err(CompileError::Parse(_))) ==> exists|a: AST| #[trigger] parsed(code@, a) && phases_run(a, r),
{
    let mut ast = match parse_ast(code) {
        Ok(ast) => ast,
        Err(e) => {
            return Err(CompileError::Parse(e));
        },
    };
    let ghost a0 = ast;
    let r = check_ast(&mut ast);
    proof { assert(parsed(code@, a0)) by { reveal(parsed); } }
    r
}

} // verus!
