//! A lazy, on-demand compiler and bytecode interpreter for a small,
//! statically-typed, C-like source language.
//!
//! Source items are registered into lexical scopes without being compiled
//! (`ast`, `engine`); a definition is converted to the flat instruction format
//! (`bytecode`) only when it is first referenced, and the stack-based
//! evaluator (`eval`) executes that format directly.

pub mod ast;
pub mod bytecode;
pub mod compile;
pub mod engine;
pub mod eval;
