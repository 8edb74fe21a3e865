//! The syntax tree that the parser builds.

pub mod expression;
pub mod statement;
