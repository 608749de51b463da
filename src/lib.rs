//! A parser, peephole optimizer, lowering pass and interpreter for an
//! eight-symbol tape language, with machine-checked contracts.

pub mod memory;
pub mod tree;
pub mod errors;
pub mod command_ast;
pub mod optimizer;
pub mod commands;
pub mod program;
pub mod semantics;
pub mod interpreter;
pub mod laws;
pub mod soundness;
