//! Truth tables for propositional formulas.
//!
//! A formula is parsed from text into an [`ast::Expr`] tree, its free
//! variables are discovered in first-occurrence order, and the tree is
//! evaluated under every boolean assignment of those variables, producing
//! the rows of a truth table.

pub mod assignment;
pub mod ast;
pub mod bitcartesiann;
pub mod parser;
