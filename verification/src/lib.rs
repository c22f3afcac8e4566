//! Front end of a small statically typed language that is embedded in
//! JavaScript: a parser into an arena-based intermediate representation,
//! scoped symbol tables, symbol resolution and a type checker.

pub mod ir;
pub mod parser;
pub mod pipeline;
pub mod symbols;
pub mod type_checker;
