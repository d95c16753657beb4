//! The front end of a small scripting language: source text to lexemes, and
//! lexemes to an expression tree.

pub mod evaluator;
pub mod expression;
pub mod number;
pub mod parser;
pub mod text;
pub mod tokenizer;
pub mod types;
