//! A small ahead-of-time compiler for an eight-instruction stack-machine
//! language: tokenize, parse into a syntax tree, lower the tree into a flat
//! instruction representation, and emit C source text with the same
//! semantics.

pub mod c;
pub mod codegen;
pub mod error;
pub mod ir;
pub mod lexer;
pub mod parser;
