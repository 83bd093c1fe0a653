//! Solver library for the Lights Out puzzle: a rectangular grid of binary
//! lights where pressing a cell toggles it together with its orthogonal
//! neighbours.  The crate offers a board type with the toggle rule, a linear
//! solver working over GF(2) and an exhaustive backtracking solver that finds
//! a solution of minimal length.

pub mod args;
pub mod board;
pub mod gf2;
pub mod model;
pub mod program;
pub mod recursive;
