//! Type and operator vocabulary for source-level syntax trees.

use vstd::prelude::*;

verus! {

/// A type annotation.
#[derive(Debug, PartialEq)]
pub enum Type {
    Int,
    Float,
    Bool,
    String,
    Void,
    Custom(String),
    Array(Box<Type>),
    Optional(Box<Type>),
}

impl Clone for Type {
    fn clone(&self) -> (r: Self)
        ensures
            r == *self,
        decreases self,
    {
        match self {
            Type::Int => Type::Int,
            Type::Float => Type::Float,
            Type::Bool => Type::Bool,
            Type::String => Type::String,
            Type::Void => Type::Void,
            Type::Custom(name) => Type::Custom(name.clone()),
            Type::Array(inner) => Type::Array(Box::new((**inner).clone())),
            Type::Optional(inner) => Type::Optional(Box::new((**inner).clone())),
        }
    }
}

/// A binary operator.
#[derive(Debug, Clone, PartialEq)]
pub enum BinOp {
    Add,
    Sub,
    Mul,
    Div,
    Mod,
    Eq,
    Ne,
    Lt,
    Gt,
    Le,
    Ge,
    And,
    Or,
}

/// A prefix operator.
#[derive(Debug, Clone, PartialEq)]
pub enum UnOp {
    Neg,
    Not,
}

} // verus!
