//! A small imperative scripting language: an abstract syntax tree, a parser
//! for its parenthesised surface syntax, and a tree-walking evaluator over a
//! single flat variable environment.

pub mod ast;
pub mod table;
pub mod text;
pub mod eval;
pub mod parser;
pub mod render;
