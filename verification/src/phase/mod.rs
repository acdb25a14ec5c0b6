//! The phases of the pipeline, leaves first.

pub mod ast_builder;
pub mod interpreter;
pub mod lexer;
pub mod parser;
pub mod phase;
pub mod unification;
pub mod type_checker;

pub use phase::{Phase, PhaseResult};
