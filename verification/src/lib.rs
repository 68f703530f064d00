//! A small expression language: a scanner that turns text into tokens, a
//! recursive-descent parser that builds an expression tree honoring operator
//! precedence and parentheses, and a tree-walking evaluator that computes a
//! signed 64-bit integer result against a mutable variable store.

pub mod interpreter;
pub mod lexer;
pub mod parser;
