//! The program's parsed input.
//!
//! Light and simulation indices are one-based, counted from the corner named
//! by the origin location; the core works with zero-based row-major indices
//! counted from the top-left corner, and `Program` performs the conversion.

use vstd::prelude::*;

verus! {

/// Everything the command line supplies.
pub struct Input {
    /// One-based indices of the lights that start on.
    pub lights: Vec<usize>,
    /// Number of rows of the board.
    pub rows: usize,
    /// Number of columns of the board.
    pub cols: usize,
    /// Whether diagnostic output was asked for (the library ignores it).
    pub verbose: bool,
    /// One-based indices to toggle in order instead of solving, if any.
    pub simulation_steps: Vec<usize>,
    /// How the result should be shown.
    pub display_mode: Display,
    /// The corner that index one names.
    pub origin_location: Origin,
}

/// The ways a solution can be presented.
#[derive(Debug, Copy, Clone, PartialEq, Eq, Structural)]
pub enum Display {
    /// Print the solution as a list of indices.
    Simple,
    /// Draw the board with the solution order laid over it.
    Draw,
    /// Both of the above.
    All,
}

/// The corner of the grid where the first index sits.
#[derive(Debug, Copy, Clone, PartialEq, Eq, Structural)]
pub enum Origin {
    /// Bottom left, mimicking a numpad.
    BottomLeft,
    /// Bottom right.
    BottomRight,
    /// Top left: the core's own convention.
    TopLeft,
    /// Top right.
    TopRight,
}

} // verus!
