//! A constraint-satisfaction toolkit for puzzles: a CSP representation with
//! constant folding and propagation, normalization, encoders that turn linear
//! constraints over integer variables into SAT clauses, and helpers for
//! puzzle-specific constraints.

pub mod util;
pub mod sat;
pub mod solver;
pub mod solver2;
pub mod arithmetic;
pub mod config;
pub mod command_line;
pub mod domain;
pub mod encoder;
pub mod norm_csp;
pub mod csp;
pub mod graph;
pub mod items;
pub mod bench;
pub mod normalizer;
pub mod complex_constraints;
pub mod polyomino;
pub mod propagators;
