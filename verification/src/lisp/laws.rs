//! What holds of the interpreter whatever it is given: laws of the lexer,
//! of the reader, of the scope chain and of the evaluator, each proved.

pub mod lexer;
pub mod reader;
pub mod scopes;
pub mod frames;
pub mod evaluator;
pub mod closures;
pub mod depth;
