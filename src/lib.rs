//! A small backtracking regular-expression engine.
//!
//! Patterns are tokenized by [`scanner`], turned into an expression tree by
//! [`parser`], and run against a target by the [`matcher`], whose behaviour
//! is stated by the spec functions of [`semantics`].
mod text;

pub mod engine;
pub mod laws;
pub mod matcher;
pub mod parser;
pub mod scanner;

pub mod semantics;
pub mod syntax;
