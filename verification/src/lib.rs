//! Arena-based abstract syntax trees: node types, a builder, traversals,
//! visitors and tree transformations, with their behaviour stated and proved.

pub mod builder;
pub mod node;
pub mod syntax;
pub mod transform;
pub mod traversal;
pub mod visitor;

pub use syntax::{BinOp, Type, UnOp};
