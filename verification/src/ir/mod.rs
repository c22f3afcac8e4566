pub mod context;
pub mod node;
pub mod text;
pub mod types;
pub mod typed;
pub mod ir_walker;
