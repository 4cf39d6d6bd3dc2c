//! The C back end.

pub mod codegen;
