use vstd::prelude::*;

use crate::ir::node::{Ident, Span};
use crate::ir::types::{builtin_index, builtin_name, BuiltinType, TypeSignature};

verus! {

/// The name of a builtin type, as characters.
pub fn builtin_chars(b: BuiltinType) -> (r: Vec<char>)
    ensures
        r@ == builtin_name(b),
{
    let r = match b {
        BuiltinType::String => vec!['S', 't', 'r', 'i', 'n', 'g'],
        BuiltinType::Number => vec!['N', 'u', 'm', 'b', 'e', 'r'],
        BuiltinType::Boolean => vec!['B', 'o', 'o', 'l', 'e', 'a', 'n'],
        BuiltinType::Void => vec!['V', 'o', 'i', 'd'],
        BuiltinType::Untyped => vec!['U', 'n', 't', 'y', 'p', 'e', 'd'],
    };
    assert(r@ =~= builtin_name(b));
    r
}

/// All builtin types, in the order of their place in a type table.
pub fn builtin_types() -> (r: Vec<BuiltinType>)
    ensures
        r@ == seq![
            BuiltinType::String,
            BuiltinType::Number,
            BuiltinType::Boolean,
            BuiltinType::Void,
            BuiltinType::Untyped,
        ],
{
    let r = vec![
        BuiltinType::String,
        BuiltinType::Number,
        BuiltinType::Boolean,
        BuiltinType::Void,
        BuiltinType::Untyped,
    ];
    assert(r@ =~= seq![
        BuiltinType::String,
        BuiltinType::Number,
        BuiltinType::Boolean,
        BuiltinType::Void,
        BuiltinType::Untyped,
    ]);
    r
}

impl BuiltinType {
    /// The name of this type, placed nowhere in the source.
    pub fn ident(&self) -> (r: Ident)
        ensures
            r.name@ == builtin_name(*self),
            r.span == (Span { start: 0, end: 0, line: 0, offset: 0 }),
    {
        Ident { name: builtin_chars(*self), span: Span { start: 0, end: 0, line: 0, offset: 0 } }
    }

    /// The reference of this type in every type table.
    pub fn type_sig(&self) -> (r: TypeSignature)
        ensures
            r.id == builtin_index(*self),
    {
        match self {
            BuiltinType::String => TypeSignature { id: 0 },
            BuiltinType::Number => TypeSignature { id: 1 },
            BuiltinType::Boolean => TypeSignature { id: 2 },
            BuiltinType::Void => TypeSignature { id: 3 },
            BuiltinType::Untyped => TypeSignature { id: 4 },
        }
    }
}

} // verus!
