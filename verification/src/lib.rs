//! A small Lisp: a lexer, a reader, scoped environments and a tree-walking
//! evaluator, with every function proved against a mathematical model.
//!
//! A value is an [`lisp::types::RLType`]; what it stands for is its view, a
//! [`lisp::types::Value`]. The frames of all scopes live in one
//! [`lisp::env::Environment`] and are named by handles, so that a procedure
//! keeps the frame it was made in for as long as the store lives. What a
//! form means is the function [`lisp::eval::evaluated`], and
//! [`lisp::eval::eval`] computes it.
//!
//! Numbers are IEEE-754 single-precision values held as their bit patterns.
//! The library orders and tests them itself. Reading a number from text and
//! the four arithmetic operations are the host's: it hands them in as
//! closures, which must be defined everywhere and give one answer for each
//! input.
//!
//! Evaluation is bounded by a depth, the number of lists that may be open
//! at once, so that it always ends. Depth changes no answer: it only decides
//! whether one is reached.

pub mod lisp;
