use vstd::prelude::*;
use std::collections::{HashMap, VecDeque};

use crate::ir::context::{IrCtx, TypeTable};
use crate::ir::ir_walker::{lemma_kinds_compat, program_walked, walk_keeps, walk_ok, walk_post, walk_program, walk_step, Pass, WalkState};
use crate::ir::node::NodeRef;
use crate::ir::types::TypeSignature;
use crate::parser::stmts_valid;
use crate::symbols::symbol_resolver::{lemma_resolve_post_trans, resolve_post, SymbolResolver};
use crate::symbols::symbol_table::symbol_table_zipper::{zipper_ok, zipper_shape, SymbolTableZipper};
use crate::symbols::symbol_table::{arena_ident, arena_items, SymbolTable};

use super::type_inference::{lookup_in, resolve_constraints, solve, subst_get, Solution};
use super::{FunctionError, TypeCheckerError, TypeConstraint, UndeterminableType};

verus! {

/// The type checker: rounds of constraint gathering, solving, applying the
/// solution and, once a round learns nothing new, checking.
#[derive(Debug)]
pub struct TypeChecker {
    pub symbols: SymbolTableZipper,
    pub substitutions: HashMap<usize, TypeSignature>,
    pub constraints: VecDeque<TypeConstraint>,
    pub previous_undeterminable_types: Vec<UndeterminableType>,
    pub immediate_undeterminable_types: Vec<UndeterminableType>,
    pub needs_rerun: bool,
}

/// A walk that ends where it started keeps what resolving keeps, and a
/// valid zipper.
proof fn lemma_walk_resolve_post(r: Result<(), TypeCheckerError>, st: &WalkState, ctx: &IrCtx, s0: &WalkState, c0: &IrCtx)
    requires
        walk_post(r, st, ctx, s0, c0),
    ensures
        resolve_post(ctx, c0),
        zipper_ok(ctx.nodes@, arena_items(ctx.symbols), arena_ident(ctx.symbols), st.symbols),
{
}

/// A copy of a list of places.
fn copy_places(v: &Vec<UndeterminableType>) -> (r: Vec<UndeterminableType>)
    ensures
        r@ == v@,
{
    let mut r: Vec<UndeterminableType> = Vec::new();
    let mut i: usize = 0;
    while i < v.len()
        invariant
            i <= v@.len(),
            r@ == v@.subrange(0, i as int),
        decreases v@.len() - i,
    {
        r.push(v[i]);
        i = i + 1;
        assert(r@ =~= v@.subrange(0, i as int));
    }
    assert(v@.subrange(0, v@.len() as int) =~= v@);
    r
}

/// What the checker carries from one round to the next: its zipper,
/// whether another round is called for, the places left unknown, and the
/// program.
pub type RoundState = (SymbolTableZipper, bool, Seq<UndeterminableType>, IrCtx);

/// `n` is `z` reset: at the global scope of the whole table, nothing
/// visited.
pub open spec fn reset_to(z: SymbolTableZipper, n: SymbolTableZipper) -> bool {
    &&& n.breadcrumb@.len() == 0
    &&& n.visited_symbols == 0
    &&& z.breadcrumb@.len() == 0 ==> n.cursor == z.cursor
    &&& crate::ir::ir_walker::table_view(n.cursor) == crate::ir::ir_walker::rooted(
        crate::ir::ir_walker::table_view(z.cursor), z.breadcrumb@)
}

/// `s` is the state in which a round gathers constraints at zipper `z`,
/// with the places `prev` that the last round left unknown.
pub open spec fn gathering_start(s: WalkState, z: SymbolTableZipper, prev: Seq<UndeterminableType>) -> bool {
    &&& s.pass == Pass::InferTypes
    &&& s.symbols == z
    &&& s.constraints@.len() == 0
    &&& s.defining@.len() == 0
    &&& s.substitutions@ == Map::<usize, TypeSignature>::empty()
    &&& !s.needs_rerun
    &&& s.undeterminable@.len() == 0
    &&& s.previous_undeterminable@ == prev
}

/// What solving the constraints `cs` over `types` gives.
pub open spec fn solved(types: TypeTable, cs: Seq<TypeConstraint>, r: Result<HashMap<usize, TypeSignature>, TypeCheckerError>) -> bool {
    match solve(types.types@, cs, Map::empty(), 0, usize::MAX as nat) {
        Solution::Solved(m) => r matches Ok(s) && forall|t: TypeSignature| #[trigger] subst_get(s@, t) == lookup_in(m, t),
        Solution::OutOfSteps(q) => r matches Err(TypeCheckerError::UnresolvableTypeConstraints(v)) && v@ == q,
        Solution::Undeterminable => r matches Err(TypeCheckerError::UndeterminableTypes(v)) && v@.len() == 0,
        Solution::Conflicting(a, b) => r matches Err(TypeCheckerError::ConflictingTypes(x, y)) && x == a && y == b,
        Solution::ArgCountMismatch(a, b) => r matches Err(
            TypeCheckerError::FunctionError(FunctionError::ArgCountMismatch(x, y)),
        ) && x == a && y == b,
    }
}

/// A round that failed with `e`, the walk being left at `z` over `c`.
pub open spec fn round_failed(z: SymbolTableZipper, c: IrCtx, e: Result<(), TypeCheckerError>, t: RoundState, r: Result<(), TypeCheckerError>) -> bool {
    e is Err && t == (z, false, Seq::<UndeterminableType>::empty(), c) && r == e
}

/// A round that went through, the walk ending in `s` over `c`.
pub open spec fn round_through(s: WalkState, c: IrCtx, t: RoundState, r: Result<(), TypeCheckerError>) -> bool {
    r is Ok && t == (s.symbols, s.needs_rerun, s.undeterminable@, c)
}

/// The check at the end of a round that learned nothing new, from the
/// state `s3` over `c3` that applying the solution left.
pub open spec fn round_checked(s3: WalkState, c3: IrCtx, stmts: Seq<NodeRef>, t: RoundState, r: Result<(), TypeCheckerError>) -> bool {
    exists|zc: SymbolTableZipper, s5: WalkState, c5: IrCtx, r5: Result<(), TypeCheckerError>|
        #![trigger reset_to(s3.symbols, zc), walk_step(s5, c5, r5)]
        reset_to(s3.symbols, zc) && program_walked((WalkState { pass: Pass::CheckTypes, symbols: zc, ..s3 }), c3, stmts, s5, c5, r5)
        && (round_failed(s5.symbols, c5, r5, t, r) || (r5 is Ok && round_through(s5, c5, t, r)))
}

/// Applying the solution `subst` to the program, from the state `s1` over
/// `c1` that gathering left, then checking when nothing new was learned.
pub open spec fn round_applied(s1: WalkState, c1: IrCtx, subst: HashMap<usize, TypeSignature>, stmts: Seq<NodeRef>, t: RoundState, r: Result<(), TypeCheckerError>) -> bool {
    exists|zb: SymbolTableZipper, s2: WalkState, s3: WalkState, c3: IrCtx, r3: Result<(), TypeCheckerError>|
        #![trigger reset_to(s1.symbols, zb), walk_step(s2, c1, Ok(())), walk_step(s3, c3, r3)]
        reset_to(s1.symbols, zb) && s2.constraints@.len() == 0
        && s2 == (WalkState { pass: Pass::ResolveTypes, symbols: zb, substitutions: subst, constraints: s2.constraints, ..s1 })
        && program_walked(s2, c1, stmts, s3, c3, r3)
        && (round_failed(s3.symbols, c3, r3, t, r) || (r3 is Ok && if s3.needs_rerun {
            round_through(s3, c3, t, r)
        } else {
            round_checked(s3, c3, stmts, t, r)
        }))
}

/// Solving the constraints that gathering left in `s1` over `c1`, then
/// applying the solution.
pub open spec fn round_solved(s1: WalkState, c1: IrCtx, stmts: Seq<NodeRef>, t: RoundState, r: Result<(), TypeCheckerError>) -> bool {
    exists|sol: Result<HashMap<usize, TypeSignature>, TypeCheckerError>|
        #[trigger] solved(c1.types, s1.constraints@, sol) && match sol {
            Ok(subst) => round_applied(s1, c1, subst, stmts, t, r),
            Err(e) => round_failed(s1.symbols, c1, Err(e), t, r),
        }
}

/// One round of the checker from `s` over the program `stmts`: gathering
/// constraints, solving them, applying the solution and, when nothing new
/// was learned, checking. It ends in `t` with `r`.
pub open spec fn round_run(s: RoundState, stmts: Seq<NodeRef>, t: RoundState, r: Result<(), TypeCheckerError>) -> bool {
    exists|za: SymbolTableZipper, s0: WalkState, s1: WalkState, c1: IrCtx, r1: Result<(), TypeCheckerError>|
        #![trigger reset_to(s.0, za), gathering_start(s0, za, s.2), walk_step(s1, c1, r1)]
        reset_to(s.0, za) && gathering_start(s0, za, s.2) && program_walked(s0, s.3, stmts, s1, c1, r1)
        && (round_failed(s1.symbols, c1, r1, t, r) || (r1 is Ok && round_solved(s1, c1, stmts, t, r)))
}

/// The most rounds the checker runs over a program of `n` nodes: two for
/// each node, and two more. (A round calls for another when it turns a
/// member access into an enum value, or when it leaves a place undetermined
/// after a round that left none.)
pub open spec fn round_limit(n: nat) -> nat {
    if n < (usize::MAX - 2) / 2 { 2 * n + 2 } else { usize::MAX as nat }
}

/// One more round, after rounds that went through and called for it.
proof fn lemma_rounds_step(k: nat, init: RoundState, m: RoundState, stmts: Seq<NodeRef>, t: RoundState, r: Result<(), TypeCheckerError>)
    requires
        k > 0,
        rounds_run((k - 1) as nat, init, stmts, m, Ok(())),
        m.1,
        round_run(m, stmts, t, r),
    ensures
        rounds_run(k, init, stmts, t, r),
{
    assert(round_step(m, Ok(())));
}

/// A count of rounds.
pub open spec fn rounds_made(k: nat) -> bool {
    true
}

/// A state between two rounds.
pub open spec fn round_step(t: RoundState, r: Result<(), TypeCheckerError>) -> bool {
    true
}

/// `k` rounds from `s`, each but the last successful and each started
/// because another round was called for, end in `t` with `r`.
pub open spec fn rounds_run(k: nat, s: RoundState, stmts: Seq<NodeRef>, t: RoundState, r: Result<(), TypeCheckerError>) -> bool
    decreases k,
{
    if k == 0 {
        t == s && r is Ok
    } else {
        exists|m: RoundState, rm: Result<(), TypeCheckerError>|
            #![trigger round_step(m, rm)]
            rounds_run((k - 1) as nat, s, stmts, m, rm) && rm is Ok && m.1 && round_run(m, stmts, t, r)
    }
}

impl TypeChecker {
    /// A type checker over the symbols of `sym_resolver`, at their global
    /// scope.
    pub fn new(sym_resolver: SymbolResolver) -> (r: TypeChecker)
        requires
            zipper_shape(sym_resolver.symbols),
        ensures
            r.symbols.breadcrumb@.len() == 0,
            r.symbols.visited_symbols == 0,
            reset_to(sym_resolver.symbols, r.symbols),
            r.needs_rerun,
            r.substitutions@ == Map::<usize, TypeSignature>::empty(),
            r.constraints@.len() == 0,
            r.previous_undeterminable_types@.len() == 0,
            r.immediate_undeterminable_types@.len() == 0,
            forall|nodes: Seq<crate::ir::node::Node>, items: Seq<crate::symbols::symbol_table::SymbolValueItem>, aid: u32|
                zipper_ok(nodes, items, aid, sym_resolver.symbols) ==> zipper_ok(nodes, items, aid, r.symbols),
    {
        let mut symbols = sym_resolver.symbols;
        symbols.reset();
        TypeChecker {
            symbols,
            substitutions: HashMap::new(),
            constraints: std::collections::VecDeque::new(),
            previous_undeterminable_types: Vec::new(),
            immediate_undeterminable_types: Vec::new(),
            needs_rerun: true,
        }
    }

    /// Type checks the program whose top-level statements are `stmts`.
    /// Each round gathers constraints, solves them into a substitution,
    /// applies it to the declared types and member accesses, and, when that
    /// learned nothing that calls for another round, checks assignments,
    /// struct and enum initializations and names. Places whose types stay
    /// unknown are reported at the end.
    #[verifier::loop_isolation(false)]
    pub fn type_check(&mut self, ctx: &mut IrCtx, stmts: &Vec<NodeRef>) -> (r: Result<(), TypeCheckerError>)
        requires
            old(ctx).wf(),
            stmts_valid(old(ctx).nodes@, stmts@),
            zipper_ok(old(ctx).nodes@, arena_items(old(ctx).symbols), arena_ident(old(ctx).symbols), old(self).symbols),
        ensures
            resolve_post(final(ctx), old(ctx)),
            zipper_ok(final(ctx).nodes@, arena_items(final(ctx).symbols), arena_ident(final(ctx).symbols), final(self).symbols),
            r is Ok ==> !final(self).needs_rerun && final(self).immediate_undeterminable_types@.len() == 0
                && final(self).constraints@.len() == 0,
            r matches Err(TypeCheckerError::UndeterminableTypes(_)) ==> final(self).immediate_undeterminable_types@.len() == 0,
            exists|k: nat, t: RoundState, r0: Result<(), TypeCheckerError>|
                #![trigger rounds_made(k), round_step(t, r0)]
                rounds_run(k, (old(self).symbols, old(self).needs_rerun, old(self).immediate_undeterminable_types@, *old(ctx)), stmts@, t, r0)
                && k <= round_limit(old(ctx).nodes@.len())
                && final(self).symbols == t.0 && *final(ctx) == t.3
                && (r0 is Err ==> r == r0)
                && (r0 is Ok ==> (!t.1 || k == round_limit(old(ctx).nodes@.len())) && if t.1 || t.2.len() > 0 {
                    r matches Err(TypeCheckerError::UndeterminableTypes(x)) && x@ == t.2
                } else {
                    r is Ok
                }),
    {
        let ghost init: RoundState = (self.symbols, self.needs_rerun, self.immediate_undeterminable_types@, *ctx);
        let ghost c0 = *ctx;
        proof { crate::ir::ir_walker::lemma_nodes_compat_refl(ctx.nodes@); }
        let limit: usize = if ctx.nodes.len() < (usize::MAX - 2) / 2 {
            2 * ctx.nodes.len() + 2
        } else {
            usize::MAX
        };
        let mut rounds: usize = 0;
        self.constraints = std::collections::VecDeque::new();
        proof { assert(rounds_run(0, init, stmts@, init, Ok(()))); }
        while self.needs_rerun && rounds < limit
            invariant
                limit == round_limit(c0.nodes@.len()),
                rounds <= limit,
                rounds_run(rounds as nat, init, stmts@, (self.symbols, self.needs_rerun, self.immediate_undeterminable_types@, *ctx), Ok(())),
                ctx.wf(),
                resolve_post(ctx, &c0),
                stmts_valid(ctx.nodes@, stmts@),
                zipper_ok(ctx.nodes@, arena_items(ctx.symbols), arena_ident(ctx.symbols), self.symbols),
                self.constraints@.len() == 0,
            decreases limit - rounds,
        {
            let ghost m: RoundState = (self.symbols, self.needs_rerun, self.immediate_undeterminable_types@, *ctx);
            proof { assert(round_step(m, Ok(()))); }
            rounds = rounds + 1;
            self.needs_rerun = false;
            self.substitutions = HashMap::new();
            let mut previous: Vec<UndeterminableType> = Vec::new();
            std::mem::swap(&mut previous, &mut self.immediate_undeterminable_types);
            let prev_copy = copy_places(&previous);
            self.previous_undeterminable_types = previous;
            let mut z = SymbolTableZipper::new(SymbolTable::new());
            std::mem::swap(&mut z, &mut self.symbols);
            z.reset();
            let mut st = WalkState {
                pass: Pass::InferTypes,
                symbols: z,
                constraints: std::collections::VecDeque::new(),
                defining: Vec::new(),
                substitutions: HashMap::new(),
                needs_rerun: false,
                undeterminable: Vec::new(),
                previous_undeterminable: prev_copy,
            };
            // gather constraints
            let ghost c1 = *ctx;
            let ghost s1 = st;
            proof {
                assert(reset_to(m.0, s1.symbols));
                assert(gathering_start(s1, s1.symbols, m.2));
            }
            let r = walk_program(&mut st, ctx, stmts);
            let ghost g1 = st;
            let ghost cg1 = *ctx;
            proof {
                assert(walk_step(g1, cg1, r));
                lemma_walk_resolve_post(r, &st, ctx, &s1, &c1);
                lemma_resolve_post_trans(ctx, &c1, &c0);
                assert forall|k: int| 0 <= k < stmts@.len() implies crate::ir::node::is_stmt(ctx.nodes@, #[trigger] stmts@[k] as int) by {
                    lemma_kinds_compat(ctx.nodes@, c1.nodes@, stmts@[k] as int);
                }
            }
            if r.is_err() {
                self.symbols = st.symbols;
                proof {
                    let ghost t: RoundState = (self.symbols, self.needs_rerun, self.immediate_undeterminable_types@, *ctx);
                    assert(round_run(m, stmts@, t, r));
                    lemma_rounds_step(rounds as nat, init, m, stmts@, t, r);
                    assert(rounds_made(rounds as nat));
                    assert(round_step(t, r));
                }
                return r;
            }
            // solve them
            let mut cs: VecDeque<TypeConstraint> = VecDeque::new();
            std::mem::swap(&mut cs, &mut st.constraints);
            let res = resolve_constraints(&ctx.types, cs, usize::MAX);
            proof { assert(solved(cg1.types, g1.constraints@, res)); }
            let subst = match res {
                Ok(s) => s,
                Err(e) => {
                    self.symbols = st.symbols;
                    proof {
                    let ghost t: RoundState = (self.symbols, self.needs_rerun, self.immediate_undeterminable_types@, *ctx);
                    assert(round_run(m, stmts@, t, Err(e)));
                    lemma_rounds_step(rounds as nat, init, m, stmts@, t, Err(e));
                    assert(rounds_made(rounds as nat));
                    assert(round_step(t, Err(e)));
                }
                    return Err(e);
                },
            };
            // apply the solution
            st.pass = Pass::ResolveTypes;
            st.substitutions = subst;
            st.symbols.reset();
            let ghost c2 = *ctx;
            let ghost s2 = st;
            proof {
                assert(reset_to(g1.symbols, s2.symbols));
                assert(walk_step(s2, cg1, Ok(())));
            }
            let r = walk_program(&mut st, ctx, stmts);
            let ghost g3 = st;
            let ghost cg3 = *ctx;
            proof {
                assert(walk_step(g3, cg3, r));
                lemma_walk_resolve_post(r, &st, ctx, &s2, &c2);
                lemma_resolve_post_trans(ctx, &c2, &c0);
                assert forall|k: int| 0 <= k < stmts@.len() implies crate::ir::node::is_stmt(ctx.nodes@, #[trigger] stmts@[k] as int) by {
                    lemma_kinds_compat(ctx.nodes@, c2.nodes@, stmts@[k] as int);
                }
            }
            if r.is_err() {
                self.symbols = st.symbols;
                proof {
                    let ghost t: RoundState = (self.symbols, self.needs_rerun, self.immediate_undeterminable_types@, *ctx);
                    assert(round_run(m, stmts@, t, r));
                    lemma_rounds_step(rounds as nat, init, m, stmts@, t, r);
                    assert(rounds_made(rounds as nat));
                    assert(round_step(t, r));
                }
                return r;
            }
            // check, once nothing new was learned
            if !st.needs_rerun {
                st.pass = Pass::CheckTypes;
                st.symbols.reset();
                let ghost c3 = *ctx;
                let ghost s3 = st;
                proof { assert(reset_to(g3.symbols, s3.symbols)); }
                let r = walk_program(&mut st, ctx, stmts);
                proof {
                    assert(walk_step(st, *ctx, r));
                    lemma_walk_resolve_post(r, &st, ctx, &s3, &c3);
                    lemma_resolve_post_trans(ctx, &c3, &c0);
                    assert forall|k: int| 0 <= k < stmts@.len() implies crate::ir::node::is_stmt(ctx.nodes@, #[trigger] stmts@[k] as int) by {
                        lemma_kinds_compat(ctx.nodes@, c3.nodes@, stmts@[k] as int);
                    }
                }
                if r.is_err() {
                    self.symbols = st.symbols;
                    proof {
                        let ghost t: RoundState = (self.symbols, self.needs_rerun, self.immediate_undeterminable_types@, *ctx);
                        assert(round_run(m, stmts@, t, r));
                        lemma_rounds_step(rounds as nat, init, m, stmts@, t, r);
                        assert(rounds_made(rounds as nat));
                        assert(round_step(t, r));
                    }
                    return r;
                }
            }
            let ghost g_last = st;
            self.needs_rerun = st.needs_rerun;
            self.immediate_undeterminable_types = st.undeterminable;
            self.substitutions = st.substitutions;
            self.symbols = st.symbols;
            proof {
                let ghost t: RoundState = (self.symbols, self.needs_rerun, self.immediate_undeterminable_types@, *ctx);
                assert(round_through(g_last, *ctx, t, Ok(())));
                assert(round_run(m, stmts@, t, Ok(())));
                lemma_rounds_step(rounds as nat, init, m, stmts@, t, Ok(()));
            }
        }
        proof {
            let ghost t: RoundState = (self.symbols, self.needs_rerun, self.immediate_undeterminable_types@, *ctx);
            assert(rounds_made(rounds as nat));
            assert(round_step(t, Ok(())));
        }
        if self.needs_rerun || self.immediate_undeterminable_types.len() > 0 {
            let mut x: Vec<UndeterminableType> = Vec::new();
            std::mem::swap(&mut x, &mut self.immediate_undeterminable_types);
            return Err(TypeCheckerError::UndeterminableTypes(x));
        }
        Ok(())
    }
}

} // verus!
