//! SFL: a small statically-typed functional language.
//!
//! The crate holds the language front end and its evaluator: a lexer, a
//! resilient parser that builds a concrete syntax tree, the lowering to an
//! abstract syntax tree, Hindley-Milner type inference and an interpreter.
//! Every function is verified against a mathematical model of the data it
//! works on.

pub mod config;
pub mod driver;
pub mod language;
pub mod message;
pub mod phase;
pub mod text;
