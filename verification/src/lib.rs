//! Hindley–Milner type inference with kinds for a small functional
//! expression language.
//!
//! Types and kinds share one algebra ([`types::Type`]). An expression is
//! walked once to collect constraints, the constraints are solved by
//! unification and one-sided matching, and the result is closed over the
//! variables that stay unbound.
//!
//! The executable functions are specified against a mathematical model of
//! the engine: [`types::Ty`] for types, [`context::Context`] for the
//! inference context, maps for substitutions. What holds of that model is
//! proved in [`laws`], [`depth`], [`renaming`], [`soundness`],
//! [`matching`] and [`solving`].

pub mod ast;
pub mod collections;
pub mod context;
pub mod env;
pub mod errors;
pub mod infer;
pub mod kinds;
pub mod names;
pub mod render;
pub mod solver;
pub mod substituable;
pub mod substitution;
pub mod types;
pub mod vars;

pub mod depth;
pub mod frame;
pub mod laws;
pub mod matching;
pub mod naming;
pub mod renaming;
pub mod solving;
pub mod soundness;
