//! Postfix (reverse Polish) expressions: a parser that builds a syntax tree,
//! and a bottom-up simplifier for that tree.
pub mod ast;
pub mod laws;
pub mod parse;
pub mod reduce;
pub mod text;

pub use ast::{BinOp, Node, Term, Type, UnOp};
