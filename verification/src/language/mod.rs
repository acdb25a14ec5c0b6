//! The data that the phases hand to each other.

pub mod ast;
pub mod cst;
pub mod token;
pub mod types;
