//! A terminal-minesweeper board engine: grid representation, safe-first-click
//! mine placement, adjacency computation, flood-fill uncovering, and win/loss
//! detection, arranged as a session state machine driven by semantic commands.

use vstd::prelude::*;

pub mod board;
pub mod generate;
pub mod flood;
pub mod level;
pub mod session;

verus! {

/// The errors the engine reports. All invariant violations are returned to the
/// caller; the engine never panics and never terminates the process.
#[derive(Clone, Copy, Debug, PartialEq, Eq, Structural)]
pub enum GameError {
    /// A board dimension is zero, or the grid would not fit in memory.
    InvalidDimensions,
    /// The requested mine count leaves no room once the safe zone is excluded.
    InsufficientSpace,
    /// A coordinate lies outside the grid.
    OutOfBounds,
}

} // verus!
