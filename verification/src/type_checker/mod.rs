use vstd::prelude::*;
use std::collections::VecDeque;

use crate::ir::node::{Ident, NodeRef, Span};
use crate::ir::types::{TypeEvalError, TypeSignature};
use crate::symbols::symbol_table::{SymbolCollectionError, SymbolValue};

pub mod check_assignment;
pub mod check_enum;
pub mod check_expr_ident;
pub mod check_struct;
pub mod coercion;
pub mod function_body_type_eval;
pub mod type_inference;
pub mod type_resolver;
pub mod types_helpers;
pub mod types_walker;

verus! {

/// Errors of symbol resolution.
#[derive(Debug)]
pub enum SymbolResolutionError {
    TypeEval(TypeEvalError),
    UnknownEnumValue { enm: NodeRef, enum_value: Ident },
    InvalidMemberAccessType { mem_acc: NodeRef, obj_type: TypeSignature },
    /// A variable whose value refers to the variable itself.
    RecursiveDeclaration { var_decl: NodeRef, ident_span: Span },
    /// The symbol table does not match the program.
    Scope(SymbolCollectionError),
}

/// Errors of assignments.
#[derive(Debug)]
pub enum AssignmentError {
    ImmutableAssignment(Ident),
    NotLValue(NodeRef),
}

/// Errors of struct initializations.
#[derive(Debug)]
pub enum StructTypeError {
    MissingAttribute(NodeRef, Ident),
    UnknownAttribute(Ident),
}

/// Errors of function types and calls.
#[derive(Debug)]
pub enum FunctionError {
    ArgCountMismatch(TypeSignature, TypeSignature),
    FuncCallWrongArgAmount { call: NodeRef, func_type: TypeSignature },
}

/// The kind of type that a construct needs.
#[derive(Debug, Clone, Copy, PartialEq, Eq, Structural)]
pub enum ExpectedType {
    Enum,
    Struct,
}

impl ExpectedType {
    /// The name of the kind, as messages write it.
    pub fn name(&self) -> (r: &'static str)
        ensures
            *self == ExpectedType::Enum ==> r@ == seq!['e', 'n', 'u', 'm'],
            *self == ExpectedType::Struct ==> r@ == seq!['s', 't', 'r', 'u', 'c', 't'],
    {
        proof {
            reveal_strlit("enum");
            reveal_strlit("struct");
        }
        match self {
            ExpectedType::Enum => "enum",
            ExpectedType::Struct => "struct",
        }
    }
}

/// A place whose type could not be worked out, and the kind of type it needs.
#[derive(Debug, Clone, Copy)]
pub struct UndeterminableType {
    pub span: Span,
    pub expected: ExpectedType,
}

/// A demand that two types be the same (up to coercion).
#[derive(Debug, Clone, Copy, PartialEq, Eq, Structural)]
pub struct TypeConstraint(pub TypeSignature, pub TypeSignature);

/// Errors of the type checker.
#[derive(Debug)]
pub enum TypeCheckerError {
    SymbolResolutionError(SymbolResolutionError),
    TypeEval(TypeEvalError),
    ConflictingTypes(TypeSignature, TypeSignature),
    AssignmentError(NodeRef, AssignmentError),
    StructError(NodeRef, StructTypeError),
    FunctionError(FunctionError),
    EnumInitArgCountMismatch(NodeRef, usize),
    AnonymousEnumInitNonEnum(NodeRef, TypeSignature),
    UnresolvableTypeConstraints(VecDeque<TypeConstraint>),
    UndeterminableTypes(Vec<UndeterminableType>),
    IdentNotExpression(NodeRef, SymbolValue),
    TypeSignatureMismatch { type_sig: TypeSignature, expr_type: TypeSignature },
    UntypedValue,
    /// The symbol table does not match the program.
    Scope(SymbolCollectionError),
}

} // verus!
