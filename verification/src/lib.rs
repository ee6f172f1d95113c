//! Dimensional consistency checking for symbolic unit expressions.
//!
//! A script declares primitive units, derives composite units from them by
//! multiplication, division and integer powers, and asserts that two derived
//! expressions denote the same dimension. This crate holds the unit algebra,
//! the scoped environment of bindings and the statement evaluator.

pub mod dimension;
pub mod error;
pub mod exponent;
pub mod ident;
pub mod interpreter;
pub mod parse;
pub mod parser;
pub mod text;
pub mod utils;
pub mod vtable;
