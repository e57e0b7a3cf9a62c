//! A tree-walking interpreter for a small dynamically typed scripting
//! language: scanner, recursive-descent parser, scoped environments and
//! evaluator.

pub mod token;
pub mod tokenizer;
pub mod number;
pub mod error;
pub mod text;
pub mod grammar;
pub mod derivation;
pub mod expr;
pub mod environment;
pub mod statement;
pub mod interpreter;
pub mod laws;
pub mod reprint;
