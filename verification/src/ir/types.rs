use vstd::prelude::*;

verus! {

/// The types that every program knows without declaring them.
#[derive(Debug, Clone, Copy, PartialEq, Eq, Structural)]
pub enum BuiltinType {
    String,
    Number,
    Boolean,
    Void,
    Untyped,
}

/// The name under which a builtin type is written in programs.
pub open spec fn builtin_name(b: BuiltinType) -> Seq<char> {
    match b {
        BuiltinType::String => seq!['S', 't', 'r', 'i', 'n', 'g'],
        BuiltinType::Number => seq!['N', 'u', 'm', 'b', 'e', 'r'],
        BuiltinType::Boolean => seq!['B', 'o', 'o', 'l', 'e', 'a', 'n'],
        BuiltinType::Void => seq!['V', 'o', 'i', 'd'],
        BuiltinType::Untyped => seq!['U', 'n', 't', 'y', 'p', 'e', 'd'],
    }
}

/// The position of a builtin type in the interned type table of a context.
pub open spec fn builtin_index(b: BuiltinType) -> usize {
    match b {
        BuiltinType::String => 0,
        BuiltinType::Number => 1,
        BuiltinType::Boolean => 2,
        BuiltinType::Void => 3,
        BuiltinType::Untyped => 4,
    }
}

/// The builtin type stored at position `i < 5` of the type table.
pub open spec fn builtin_at(i: int) -> BuiltinType {
    if i == 0 {
        BuiltinType::String
    } else if i == 1 {
        BuiltinType::Number
    } else if i == 2 {
        BuiltinType::Boolean
    } else if i == 3 {
        BuiltinType::Void
    } else {
        BuiltinType::Untyped
    }
}

/// The number of builtin types.
pub const BUILTIN_COUNT: usize = 5;

/// A reference to an interned type in the type table of a context.
#[derive(Debug, Clone, Copy, PartialEq, Eq, Structural)]
pub struct TypeSignature {
    pub id: usize,
}

/// The shape of a type; the component types are references into the same table.
#[derive(Debug)]
pub enum TypeSignatureValue {
    Builtin(BuiltinType),
    Struct { name: Vec<char> },
    Enum { name: Vec<char> },
    Function { args: Vec<TypeSignature>, return_type: TypeSignature },
    Tuple(Vec<TypeSignature>),
    TypeVariable(usize),
    Unresolved(Vec<char>),
}

/// The mathematical value of a type shape.
pub enum TypeValue {
    Builtin(BuiltinType),
    Struct(Seq<char>),
    Enum(Seq<char>),
    Function(Seq<TypeSignature>, TypeSignature),
    Tuple(Seq<TypeSignature>),
    TypeVariable(usize),
    Unresolved(Seq<char>),
}

impl View for TypeSignatureValue {
    type V = TypeValue;

    open spec fn view(&self) -> TypeValue {
        match self {
            TypeSignatureValue::Builtin(b) => TypeValue::Builtin(*b),
            TypeSignatureValue::Struct { name } => TypeValue::Struct(name@),
            TypeSignatureValue::Enum { name } => TypeValue::Enum(name@),
            TypeSignatureValue::Function { args, return_type } => TypeValue::Function(
                args@,
                *return_type,
            ),
            TypeSignatureValue::Tuple(items) => TypeValue::Tuple(items@),
            TypeSignatureValue::TypeVariable(v) => TypeValue::TypeVariable(*v),
            TypeSignatureValue::Unresolved(name) => TypeValue::Unresolved(name@),
        }
    }
}

/// The type references that a type shape is made of.
pub open spec fn type_children(v: TypeValue) -> Seq<TypeSignature> {
    match v {
        TypeValue::Function(args, ret) => args.push(ret),
        TypeValue::Tuple(items) => items,
        _ => Seq::empty(),
    }
}

fn type_sigs_eq(a: &Vec<TypeSignature>, b: &Vec<TypeSignature>) -> (r: bool)
    ensures
        r == (a@ == b@),
{
    if a.len() != b.len() {
        return false;
    }
    let mut i: usize = 0;
    while i < a.len()
        invariant
            a@.len() == b@.len(),
            i <= a@.len(),
            forall|k: int| 0 <= k < i ==> a@[k] == b@[k],
        decreases a@.len() - i,
    {
        if a[i].id != b[i].id {
            return false;
        }
        i = i + 1;
    }
    assert(a@ =~= b@);
    true
}

/// Copies a list of type references.
pub fn copy_type_sigs(a: &Vec<TypeSignature>) -> (r: Vec<TypeSignature>)
    ensures
        r@ == a@,
{
    let mut r: Vec<TypeSignature> = Vec::new();
    let mut i: usize = 0;
    while i < a.len()
        invariant
            i <= a@.len(),
            r@ == a@.subrange(0, i as int),
        decreases a@.len() - i,
    {
        r.push(a[i]);
        i = i + 1;
        assert(r@ =~= a@.subrange(0, i as int));
    }
    assert(a@.subrange(0, a@.len() as int) =~= a@);
    r
}

impl TypeSignatureValue {
    /// Structural comparison of two type shapes.
    pub fn same_as(&self, other: &TypeSignatureValue) -> (r: bool)
        ensures
            r == (self@ == other@),
    {
        match (self, other) {
            (TypeSignatureValue::Builtin(a), TypeSignatureValue::Builtin(b)) => *a == *b,
            (TypeSignatureValue::Struct { name: a }, TypeSignatureValue::Struct { name: b }) => {
                crate::ir::text::chars_eq(a, b)
            },
            (TypeSignatureValue::Enum { name: a }, TypeSignatureValue::Enum { name: b }) => {
                crate::ir::text::chars_eq(a, b)
            },
            (
                TypeSignatureValue::Function { args: a, return_type: ra },
                TypeSignatureValue::Function { args: b, return_type: rb },
            ) => ra.id == rb.id && type_sigs_eq(a, b),
            (TypeSignatureValue::Tuple(a), TypeSignatureValue::Tuple(b)) => type_sigs_eq(a, b),
            (TypeSignatureValue::TypeVariable(a), TypeSignatureValue::TypeVariable(b)) => *a == *b,
            (TypeSignatureValue::Unresolved(a), TypeSignatureValue::Unresolved(b)) => {
                crate::ir::text::chars_eq(a, b)
            },
            _ => false,
        }
    }

    /// A copy of this type shape.
    pub fn copy(&self) -> (r: TypeSignatureValue)
        ensures
            r@ == self@,
    {
        match self {
            TypeSignatureValue::Builtin(b) => TypeSignatureValue::Builtin(*b),
            TypeSignatureValue::Struct { name } => TypeSignatureValue::Struct {
                name: crate::ir::text::copy_chars(name),
            },
            TypeSignatureValue::Enum { name } => TypeSignatureValue::Enum {
                name: crate::ir::text::copy_chars(name),
            },
            TypeSignatureValue::Function { args, return_type } => TypeSignatureValue::Function {
                args: copy_type_sigs(args),
                return_type: *return_type,
            },
            TypeSignatureValue::Tuple(items) => TypeSignatureValue::Tuple(copy_type_sigs(items)),
            TypeSignatureValue::TypeVariable(v) => TypeSignatureValue::TypeVariable(*v),
            TypeSignatureValue::Unresolved(name) => TypeSignatureValue::Unresolved(
                crate::ir::text::copy_chars(name),
            ),
        }
    }
}

} // verus!

verus! {

/// Errors while working out the type of an expression.
#[derive(Debug)]
pub enum TypeEvalError {
    /// A name that no visible symbol has.
    UnknownIdent(crate::ir::node::Ident),
    /// A call of a value whose type is not a function type.
    CallNonFunction(TypeSignature),
    /// An attribute read of a value whose type is not a struct type.
    AccessNonStruct(TypeSignature),
    /// An element read of a value whose type is not a tuple type, or beyond
    /// its elements.
    TupleAccess(TypeSignature, usize),
    /// A name that stands for something without a value type (or a scope
    /// that the symbol table does not hold).
    Lookup(crate::ir::node::Ident),
}

} // verus!
