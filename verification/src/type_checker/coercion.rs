use vstd::prelude::*;

use crate::ir::context::TypeTable;
use crate::ir::typed::{deep, deep_all, lemma_deep_injective, lemma_deep_value, DeepType};
use crate::ir::types::{builtin_index, BuiltinType, TypeSignature, TypeSignatureValue, TypeValue};

verus! {

/// Whether a value of type `a` may stand where a value of type `b` is
/// expected: tuples coerce element by element (as far as both reach), the
/// untyped type coerces to every type, and every other type only to itself.
pub open spec fn spec_can_coerce_to(
    types: Seq<TypeSignatureValue>,
    a: TypeSignature,
    b: TypeSignature,
) -> bool
    decreases a.id,
{
    if a.id < types.len() && b.id < types.len() && types[a.id as int]@ is Tuple
        && types[b.id as int]@ is Tuple {
        let xs = types[a.id as int]@->Tuple_0;
        let ys = types[b.id as int]@->Tuple_0;
        forall|k: int|
            0 <= k < xs.len() && k < ys.len() ==> #[trigger] xs[k].id < a.id && spec_can_coerce_to(
                types,
                xs[k],
                ys[k],
            )
    } else if a.id == builtin_index(BuiltinType::Untyped) {
        true
    } else {
        a == b
    }
}

/// The type that two types are brought to when they meet: `b` when `a`
/// coerces to `b`, otherwise `a` when `b` coerces to `a`, otherwise none.
pub open spec fn spec_coerce(
    types: Seq<TypeSignatureValue>,
    a: TypeSignature,
    b: TypeSignature,
) -> Option<TypeSignature> {
    if spec_can_coerce_to(types, a, b) {
        Some(b)
    } else if spec_can_coerce_to(types, b, a) {
        Some(a)
    } else {
        None
    }
}

/// Whether `type_sig` can be coerced to `other`.
pub fn can_coerce_to(type_sig: TypeSignature, other: TypeSignature, ctx: &TypeTable) -> (r: bool)
    requires
        ctx.wf(),
        ctx.contains(type_sig),
        ctx.contains(other),
    ensures
        r == spec_can_coerce_to(ctx.types@, type_sig, other),
    decreases type_sig.id,
{
    let self_t = ctx.get(type_sig);
    let other_t = ctx.get(other);
    match (self_t, other_t) {
        (TypeSignatureValue::Tuple(selves), TypeSignatureValue::Tuple(others)) => {
            let n = if selves.len() < others.len() {
                selves.len()
            } else {
                others.len()
            };
            let mut k: usize = 0;
            while k < n
                invariant
                    ctx.wf(),
                    ctx.contains(type_sig),
                    ctx.contains(other),
                    ctx.value(type_sig) == TypeValue::Tuple(selves@),
                    ctx.value(other) == TypeValue::Tuple(others@),
                    n <= selves@.len(),
                    n <= others@.len(),
                    n == selves@.len() || n == others@.len(),
                    k <= n,
                    forall|j: int|
                        0 <= j < k ==> #[trigger] selves@[j].id < type_sig.id && spec_can_coerce_to(
                            ctx.types@,
                            selves@[j],
                            others@[j],
                        ),
                decreases n - k,
            {
                proof {
                    assert(crate::ir::types::type_children(ctx.value(type_sig))[k as int]
                        == selves@[k as int]);
                    assert(crate::ir::types::type_children(ctx.value(other))[k as int]
                        == others@[k as int]);
                }
                if !can_coerce_to(selves[k], others[k], ctx) {
                    return false;
                }
                k = k + 1;
            }
            true
        },
        _ => {
            if type_sig.id == ctx.builtin(BuiltinType::Untyped).id {
                true
            } else {
                type_sig.id == other.id
            }
        },
    }
}

/// The common type of `a` and `b`, if one coerces to the other.
pub fn coerce(a: TypeSignature, b: TypeSignature, ctx: &TypeTable) -> (r: Option<TypeSignature>)
    requires
        ctx.wf(),
        ctx.contains(a),
        ctx.contains(b),
    ensures
        r == spec_coerce(ctx.types@, a, b),
{
    if can_coerce_to(a, b, ctx) {
        Some(b)
    } else if can_coerce_to(b, a, ctx) {
        Some(a)
    } else {
        None
    }
}

/// Every type coerces to itself.
pub proof fn lemma_can_coerce_reflexive(types: Seq<TypeSignatureValue>, a: TypeSignature)
    requires
        crate::ir::context::types_wf(types),
        a.id < types.len(),
    ensures
        spec_can_coerce_to(types, a, a),
    decreases a.id,
{
    if types[a.id as int]@ is Tuple {
        let xs = types[a.id as int]@->Tuple_0;
        assert forall|k: int| 0 <= k < xs.len() && k < xs.len() implies #[trigger] xs[k].id < a.id
            && spec_can_coerce_to(types, xs[k], xs[k]) by {
            assert(crate::ir::types::type_children(types[a.id as int]@)[k] == xs[k]);
            lemma_can_coerce_reflexive(types, xs[k]);
        }
    }
}

/// Two equal types meet in that same type.
pub proof fn lemma_coerce_same(types: Seq<TypeSignatureValue>, a: TypeSignature)
    requires
        crate::ir::context::types_wf(types),
        a.id < types.len(),
    ensures
        spec_coerce(types, a, a) == Some(a),
{
    lemma_can_coerce_reflexive(types, a);
}

/// The untyped type coerces to every type, so it meets any type `b` in `b`.
pub proof fn lemma_untyped_coerces_to_all(types: Seq<TypeSignatureValue>, b: TypeSignature)
    requires
        crate::ir::context::types_wf(types),
        b.id < types.len(),
    ensures
        spec_can_coerce_to(types, TypeSignature { id: builtin_index(BuiltinType::Untyped) }, b),
        spec_coerce(types, TypeSignature { id: builtin_index(BuiltinType::Untyped) }, b) == Some(b),
{
    assert(types[4]@ == TypeValue::Builtin(BuiltinType::Untyped));
}

/// Meeting is symmetric in whether it succeeds.
pub proof fn lemma_coerce_symmetric_success(
    types: Seq<TypeSignatureValue>,
    a: TypeSignature,
    b: TypeSignature,
)
    ensures
        spec_coerce(types, a, b) is Some <==> spec_coerce(types, b, a) is Some,
{
}

/// Whether a value of the type `a` may stand where one of the type `b` is
/// expected, told from the types alone: tuples item by item (as far as both
/// reach), the untyped type to every type, every other type to itself only.
pub open spec fn coerces_to(a: DeepType, b: DeepType) -> bool
    decreases a, 0int,
{
    if a is Tuple && b is Tuple {
        items_coerce(a->Tuple_0, b->Tuple_0, 0)
    } else {
        a == DeepType::Builtin(BuiltinType::Untyped) || a == b
    }
}

/// From position `k` on, as far as both reach, each item of `xs` coerces to
/// the item of `ys` at the same position.
pub open spec fn items_coerce(xs: Seq<DeepType>, ys: Seq<DeepType>, k: int) -> bool
    decreases xs, xs.len() - k,
{
    if 0 <= k < xs.len() && k < ys.len() {
        coerces_to(xs[k], ys[k]) && items_coerce(xs, ys, k + 1)
    } else {
        true
    }
}

proof fn lemma_items_coerce(xs: Seq<DeepType>, ys: Seq<DeepType>, k: int)
    requires
        0 <= k,
    ensures
        items_coerce(xs, ys, k) <==> forall|j: int| k <= j < xs.len() && j < ys.len() ==> #[trigger] coerces_to(xs[j], ys[j]),
    decreases xs.len() - k,
{
    if k < xs.len() && k < ys.len() {
        lemma_items_coerce(xs, ys, k + 1);
        if items_coerce(xs, ys, k) {
            assert forall|j: int| k <= j < xs.len() && j < ys.len() implies #[trigger] coerces_to(xs[j], ys[j]) by {
                if j > k {
                    assert(k + 1 <= j);
                }
            }
        }
        if forall|j: int| k <= j < xs.len() && j < ys.len() ==> #[trigger] coerces_to(xs[j], ys[j]) {
            assert(coerces_to(xs[k], ys[k]));
            assert forall|j: int| k + 1 <= j < xs.len() && j < ys.len() implies #[trigger] coerces_to(xs[j], ys[j]) by {}
        }
    }
}

/// Coercion between two types of a well formed table depends on nothing but
/// what the two types are: not on where they stand in the table.
pub proof fn lemma_coercion_by_shape(types: Seq<TypeSignatureValue>, a: TypeSignature, b: TypeSignature)
    requires
        crate::ir::context::types_wf(types),
        a.id < types.len(),
        b.id < types.len(),
    ensures
        spec_can_coerce_to(types, a, b) == coerces_to(deep(types, a), deep(types, b)),
    decreases a.id,
{
    lemma_deep_value(types, a);
    lemma_deep_value(types, b);
    lemma_deep_injective(types, a, b);
    let u = TypeSignature { id: builtin_index(BuiltinType::Untyped) };
    assert(types[4]@ == TypeValue::Builtin(BuiltinType::Untyped));
    assert(deep(types, u) == DeepType::Builtin(BuiltinType::Untyped));
    lemma_deep_injective(types, a, u);
    match (types[a.id as int]@, types[b.id as int]@) {
        (TypeValue::Tuple(xs), TypeValue::Tuple(ys)) => {
            assert forall|k: int| 0 <= k < xs.len() && k < ys.len() implies (#[trigger] xs[k]).id < a.id
                && (spec_can_coerce_to(types, xs[k], ys[k]) == coerces_to(deep(types, xs[k]), deep(types, ys[k]))) by {
                assert(crate::ir::types::type_children(types[a.id as int]@)[k] == xs[k]);
                assert(crate::ir::types::type_children(types[b.id as int]@)[k] == ys[k]);
                lemma_coercion_by_shape(types, xs[k], ys[k]);
            }
            let dx = deep_all(types, xs);
            let dy = deep_all(types, ys);
            assert(deep(types, a) == DeepType::Tuple(dx));
            assert(deep(types, b) == DeepType::Tuple(dy));
            assert(dx.len() == xs.len() && dy.len() == ys.len());
            lemma_items_coerce(dx, dy, 0);
            if spec_can_coerce_to(types, a, b) {
                assert forall|k: int| 0 <= k < dx.len() && k < dy.len() implies #[trigger] coerces_to(dx[k], dy[k]) by {
                    assert(xs[k].id < a.id && spec_can_coerce_to(types, xs[k], ys[k]));
                }
            }
            if coerces_to(deep(types, a), deep(types, b)) {
                assert forall|k: int| 0 <= k < xs.len() && k < ys.len() implies #[trigger] xs[k].id < a.id
                    && spec_can_coerce_to(types, xs[k], ys[k]) by {
                    assert(coerces_to(dx[k], dy[k]));
                }
            }
        },
        _ => {
            assert(!(deep(types, a) is Tuple) || !(deep(types, b) is Tuple));
        },
    }
}

/// The type that two types meet in, told from the types alone: `b` when
/// `a` coerces to `b`, otherwise `a` when `b` coerces to `a`.
pub open spec fn coerce_shape(a: DeepType, b: DeepType) -> Option<DeepType> {
    if coerces_to(a, b) {
        Some(b)
    } else if coerces_to(b, a) {
        Some(a)
    } else {
        None
    }
}

/// Where two types of a well formed table meet is told by the types alone.
pub proof fn lemma_coerce_by_shape(types: Seq<TypeSignatureValue>, a: TypeSignature, b: TypeSignature)
    requires
        crate::ir::context::types_wf(types),
        a.id < types.len(),
        b.id < types.len(),
    ensures
        spec_coerce(types, a, b) is None <==> coerce_shape(deep(types, a), deep(types, b)) is None,
        spec_coerce(types, a, b) matches Some(c) ==> coerce_shape(deep(types, a), deep(types, b)) == Some(deep(types, c)),
{
    lemma_coercion_by_shape(types, a, b);
    lemma_coercion_by_shape(types, b, a);
}

} // verus!
