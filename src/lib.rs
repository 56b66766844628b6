//! Compiler core for a declarative state-machine language: the checked model
//! of a specification, the analysis that builds it, the layout of the code
//! generated from it, and a table-driven engine that runs it.

pub mod model;
pub mod parser;
pub mod runtime;
pub mod codegen;
pub mod validation;
pub mod grammar;
