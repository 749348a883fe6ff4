//! A small Lisp interpreter: a reader that turns text into values, a chain of lexical
//! scopes, an evaluator with the special form `def!` and native arithmetic, and a printer.
pub mod types;
pub mod chars;
pub mod reader;
pub mod env;
pub mod eval;
pub mod printer;
pub mod laws;
