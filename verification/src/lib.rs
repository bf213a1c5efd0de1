//! Solvers for a collection of small text-input puzzles.
//!
//! The heart of the crate is a combinational boolean-circuit evaluator with a
//! fault-localizing repair search (the `circuit`, `eval`, `codec`, `reach`,
//! `oracle` and `repair` modules, tied together by `d24`): it models a binary
//! ripple-carry adder built from named wires and two-input AND/OR/XOR gates,
//! evaluates it with a worklist, diagnoses wrong output bits with canonical
//! per-digit test vectors, and searches for output-wire swaps that repair it.
//! The remaining `dNN` modules are self-contained solvers over the same kind
//! of plain text input.

pub mod circuit;
pub mod codec;
pub mod d01;
pub mod d02;
pub mod d03;
pub mod d04;
pub mod d05;
pub mod d08;
pub mod d09;
pub mod d10;
pub mod d11;
pub mod d18;
pub mod d24;
pub mod d25;
pub mod eval;
pub mod oracle;
pub mod reach;
pub mod repair;
pub mod util;
