use vstd::prelude::*;

use crate::ir::context::{sigs_in, IrCtx};
use crate::ir::node::Span;
use crate::ir::typed::{deep, deep_all, lemma_deep_extends, lemma_deep_value, DeepType};
use crate::ir::types::{type_children, TypeSignature, TypeSignatureValue, TypeValue};

use super::identifier::spec_identifier;
use super::{
    advances, parse_post, parse_pre, spec_spaced_char, spec_spaced_tag, ws_end, ParserContext, ParserError,
    ParserErrorKind, Res,
};

verus! {

/// A parsed type signature and the span of its text.
pub type SigRes = Res<(TypeSignature, Span)>;

/// The type is interned in the context.
pub open spec fn sig_valid(ctx: &IrCtx, t: TypeSignature) -> bool {
    t.id < ctx.types.types@.len()
}

/// The type signature at `i`: the position after it and the type it
/// writes, or nothing where none stands. A function type `(T, ...) -> T`
/// is tried first, then a named type, then a tuple type `(T, ...)`.
pub open spec fn spec_type_sig(s: Seq<char>, i: int) -> Option<(int, DeepType)>
    decreases s.len() - i, 3nat,
{
    match spec_sig_func(s, i) {
        Some(x) => Some(x),
        None => match spec_sig_base(s, i) {
            Some(x) => Some(x),
            None => spec_sig_tuple(s, i),
        },
    }
}

/// A named type: an identifier, which names a type not yet resolved.
pub open spec fn spec_sig_base(s: Seq<char>, i: int) -> Option<(int, DeepType)> {
    match spec_identifier(s, i) {
        Some((a, b, e)) => Some((e, DeepType::Unresolved(s.subrange(a, b)))),
        None => None,
    }
}

/// A function type: its argument list, `->`, and its return type.
pub open spec fn spec_sig_func(s: Seq<char>, i: int) -> Option<(int, DeepType)>
    decreases s.len() - i, 2nat,
{
    match spec_sig_list(s, i) {
        Some((j, args)) => match spec_spaced_tag(s, j, seq!['-', '>']) {
            Some(k) => if advances(s, i, k) {
                match spec_type_sig(s, k) {
                    Some((m, ret)) => Some((m, DeepType::Function(args, Box::new(ret)))),
                    None => None,
                }
            } else {
                None
            },
            None => None,
        },
        None => None,
    }
}

/// A tuple type: a list of types.
pub open spec fn spec_sig_tuple(s: Seq<char>, i: int) -> Option<(int, DeepType)>
    decreases s.len() - i, 2nat,
{
    match spec_sig_list(s, i) {
        Some((j, items)) => Some((j, DeepType::Tuple(items))),
        None => None,
    }
}

/// `( T, ... )`: types separated by commas in round brackets, possibly none.
/// (Every position that a parser hands back lies after the one it started
/// from, which the `advances` tests state.)
pub open spec fn spec_sig_list(s: Seq<char>, i: int) -> Option<(int, Seq<DeepType>)>
    decreases s.len() - i, 1nat,
{
    match spec_spaced_char(s, i, '(') {
        Some(j) => if advances(s, i, j) {
            let (k, items) = match spec_type_sig(s, j) {
                Some((k0, t)) => if advances(s, j, k0) {
                    let (k1, ts) = spec_sig_more(s, k0);
                    (k1, seq![t] + ts)
                } else {
                    (j, Seq::empty())
                },
                None => (j, Seq::empty()),
            };
            let a = ws_end(s, k);
            if 0 <= a < s.len() && s[a] == ')' {
                Some((a + 1, items))
            } else {
                None
            }
        } else {
            None
        },
        None => None,
    }
}

/// `, T` repeated from `j`: the position after the last type read and the
/// types.
pub open spec fn spec_sig_more(s: Seq<char>, j: int) -> (int, Seq<DeepType>)
    decreases s.len() - j, 0nat,
{
    match spec_spaced_char(s, j, ',') {
        Some(k) => if advances(s, j, k) {
            match spec_type_sig(s, k) {
                Some((m, t)) => if advances(s, k, m) {
                    let (e, ts) = spec_sig_more(s, m);
                    (e, seq![t] + ts)
                } else {
                    (j, Seq::empty())
                },
                None => (j, Seq::empty()),
            }
        } else {
            (j, Seq::empty())
        },
        None => (j, Seq::empty()),
    }
}

/// The full types of a list keep their meaning when the table grows.
pub proof fn lemma_deep_all_extends(new: &IrCtx, old: &IrCtx, ts: Seq<TypeSignature>)
    requires
        parse_post(new, old),
        sigs_in(ts, old.types.types@.len() as int),
    ensures
        deep_all(new.types.types@, ts) == deep_all(old.types.types@, ts),
{
    assert forall|k: int| 0 <= k < ts.len() implies deep(new.types.types@, ts[k]) == deep(old.types.types@, ts[k]) by {
        lemma_deep_extends(new.types.types@, old.types.types@, ts[k]);
    }
    assert(deep_all(new.types.types@, ts) =~= deep_all(old.types.types@, ts));
}

/// Why a parser failed: nothing of its kind stands at the position where it
/// started (`none`).
pub open spec fn sig_failure(ctx: &IrCtx, e: ParserError, none: bool) -> bool {
    e.kind != ParserErrorKind::TooLarge && none
}

impl ParserContext {
    /// A type signature: a function type `(T, ...) -> T`, a named type, or a
    /// tuple type `(T, ...)`, tried in this order.
    pub fn type_signature(&self, ctx: &mut IrCtx, i: usize) -> (r: SigRes)
        requires
            parse_pre(self, old(ctx), i),
        ensures
            parse_post(final(ctx), old(ctx)),
            r matches Ok((j, (t, sp))) ==> i < j <= self.source@.len() && sig_valid(final(ctx), t)
                && sp.start == i && sp.end == j
                && spec_type_sig(self.source@, i as int) == Some((j as int, deep(final(ctx).types.types@, t))),
            r matches Err(e) ==> sig_failure(final(ctx), e, spec_type_sig(self.source@, i as int) is None),
        decreases self.source@.len() - i, 3nat,
    {
        let v = match self.type_sig_func(ctx, i) {
            Ok(x) => Ok(x),
            Err(e) => {
                match self.type_sig_base(ctx, i) {
                    Ok(x) => Ok(x),
                    Err(_) => {
                        self.type_sig_tuple(ctx, i)
                    },
                }
            },
        };
        match v {
            Ok((j, t)) => Ok((j, (t, self.span(i, j)))),
            Err(e) => {
                Err(ParserError { offset: e.offset, kind: ParserErrorKind::TypeSignature })
            },
        }
    }

    /// A named type; it stays unresolved until symbols are known.
    fn type_sig_base(&self, ctx: &mut IrCtx, i: usize) -> (r: Res<TypeSignature>)
        requires
            parse_pre(self, old(ctx), i),
        ensures
            parse_post(final(ctx), old(ctx)),
            r matches Ok((j, t)) ==> i < j <= self.source@.len() && sig_valid(final(ctx), t)
                && final(ctx).types.value(t) is Unresolved
                && spec_sig_base(self.source@, i as int) == Some((j as int, deep(final(ctx).types.types@, t))),
            r matches Err(e) ==> sig_failure(final(ctx), e, spec_sig_base(self.source@, i as int) is None),
    {
        let (j, ident) = self.identifier(i)?;
        Ok((j, ctx.intern(TypeSignatureValue::Unresolved(ident.name))))
    }

    /// `( T, ... )`: a comma separated list of type signatures in round brackets.
    fn type_sig_list(&self, ctx: &mut IrCtx, i: usize) -> (r: Res<Vec<TypeSignature>>)
        requires
            parse_pre(self, old(ctx), i),
        ensures
            parse_post(final(ctx), old(ctx)),
            r matches Ok((j, v)) ==> i < j <= self.source@.len() && sigs_in(v@, final(ctx).types.types@.len() as int)
                && spec_sig_list(self.source@, i as int) == Some((j as int, deep_all(final(ctx).types.types@, v@))),
            r matches Err(e) ==> sig_failure(final(ctx), e, spec_sig_list(self.source@, i as int) is None),
        decreases self.source@.len() - i, 1nat,
    {
        let ghost s = self.source@;
        let (mut j, _) = self.spaced_char(i, '(')?;
        let ghost j0 = j as int;
        let mut sigs: Vec<TypeSignature> = Vec::new();
        match self.type_signature(ctx, j) {
            Ok((k, (t, _))) => {
                let ghost more = spec_sig_more(s, k as int);
                let ghost t0 = deep(ctx.types.types@, t);
                sigs.push(t);
                j = k;
                proof {
                    assert(deep_all(ctx.types.types@, sigs@) =~= seq![t0] + more.1.take(0));
                    assert(more.1.skip(0) =~= more.1);
                }
                loop
                    invariant
                        parse_pre(self, ctx, j),
                        parse_post(ctx, old(ctx)),
                        s == self.source@,
                        i < j0 < j,
                        sigs@.len() >= 1,
                        sigs_in(sigs@, ctx.types.types@.len() as int),
                        more == spec_sig_more(s, k as int),
                        sigs@.len() - 1 <= more.1.len(),
                        spec_sig_more(s, j as int) == (more.0, more.1.skip(sigs@.len() - 1)),
                        deep_all(ctx.types.types@, sigs@) == seq![t0] + more.1.take(sigs@.len() - 1),
                    ensures
                        spec_sig_more(s, j as int) == (j as int, Seq::<DeepType>::empty()),
                    decreases self.source@.len() - j,
                {
                    let k2 = match self.spaced_char(j, ',') {
                        Ok((k2, _)) => k2,
                        Err(_) => {
                            break;
                        },
                    };
                    let ghost c1 = *ctx;
                    match self.type_signature(ctx, k2) {
                        Ok((m, (t, _))) => {
                            proof {
                                lemma_deep_all_extends(ctx, &c1, sigs@);
                                let n = sigs@.len() - 1;
                                let rest = spec_sig_more(s, m as int);
                                assert(more.1.skip(n) == seq![deep(ctx.types.types@, t)] + rest.1);
                                assert(n < more.1.len());
                                assert(more.1.skip(n)[0] == more.1[n]);
                                assert(more.1.skip(n + 1) =~= more.1.skip(n).drop_first());
                                assert(more.1.skip(n).drop_first() =~= rest.1);
                                assert(more.1.take(n + 1) =~= more.1.take(n).push(more.1[n]));
                            }
                            let ghost old_sigs = sigs@;
                            sigs.push(t);
                            j = m;
                            proof {
                                assert(deep_all(ctx.types.types@, sigs@) =~= deep_all(ctx.types.types@, old_sigs).push(
                                    deep(ctx.types.types@, t)));
                                assert(deep_all(ctx.types.types@, sigs@) =~= seq![t0] + more.1.take(sigs@.len() - 1));
                            }
                        },
                        Err(_) => {
                            proof { lemma_deep_all_extends(ctx, &c1, sigs@); }
                            break;
                        },
                    }
                }
                proof {
                    assert(more.1.skip(sigs@.len() - 1).len() == 0);
                    assert(more.1.take(sigs@.len() - 1) =~= more.1);
                }
            },
            Err(_) => {},
        }
        let a = self.ws0(j);
        let (b, _) = self.char_tag(a, ')')?;
        Ok((b, sigs))
    }

    /// `(T, ...) -> T`.
    fn type_sig_func(&self, ctx: &mut IrCtx, i: usize) -> (r: Res<TypeSignature>)
        requires
            parse_pre(self, old(ctx), i),
        ensures
            parse_post(final(ctx), old(ctx)),
            r matches Ok((j, t)) ==> i < j <= self.source@.len() && sig_valid(final(ctx), t)
                && final(ctx).types.value(t) is Function
                && spec_sig_func(self.source@, i as int) == Some((j as int, deep(final(ctx).types.types@, t))),
            r matches Err(e) ==> sig_failure(final(ctx), e, spec_sig_func(self.source@, i as int) is None),
        decreases self.source@.len() - i, 2nat,
    {
        let (j, args) = self.type_sig_list(ctx, i)?;
        let (k, _) = self.spaced_tag(j, &vec!['-', '>'])?;
        let ghost c1 = *ctx;
        let (m, (ret, _)) = self.type_signature(ctx, k)?;
        proof { lemma_deep_all_extends(ctx, &c1, args@); }
        let v = TypeSignatureValue::Function { args, return_type: ret };
        assert(sigs_in(type_children(v@), ctx.types.types@.len() as int)) by {
            assert(type_children(v@) == args@.push(ret));
        }
        let ghost c2 = *ctx;
        let t = ctx.intern(v);
        proof {
            lemma_deep_all_extends(ctx, &c2, args@);
            lemma_deep_extends(ctx.types.types@, c2.types.types@, ret);
            lemma_deep_value(ctx.types.types@, t);
        }
        Ok((m, t))
    }

    /// `(T, ...)`.
    fn type_sig_tuple(&self, ctx: &mut IrCtx, i: usize) -> (r: Res<TypeSignature>)
        requires
            parse_pre(self, old(ctx), i),
        ensures
            parse_post(final(ctx), old(ctx)),
            r matches Ok((j, t)) ==> i < j <= self.source@.len() && sig_valid(final(ctx), t)
                && final(ctx).types.value(t) is Tuple
                && spec_sig_tuple(self.source@, i as int) == Some((j as int, deep(final(ctx).types.types@, t))),
            r matches Err(e) ==> sig_failure(final(ctx), e, spec_sig_tuple(self.source@, i as int) is None),
        decreases self.source@.len() - i, 2nat,
    {
        let (j, items) = self.type_sig_list(ctx, i)?;
        let ghost c1 = *ctx;
        let t = ctx.intern(TypeSignatureValue::Tuple(items));
        proof {
            lemma_deep_all_extends(ctx, &c1, items@);
            lemma_deep_value(ctx.types.types@, t);
        }
        Ok((j, t))
    }
}

} // verus!
