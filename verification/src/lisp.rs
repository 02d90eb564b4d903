//! The interpreter, leaves first: values, numbers, environments, the reader,
//! the native procedures and the evaluator.

pub mod types;
pub mod number;
pub mod env;
pub mod text;
pub mod print;
pub mod modules;
pub mod eval;
pub mod lex;
pub mod laws;
