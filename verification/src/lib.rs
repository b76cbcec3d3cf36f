//! A verified solver for classic 9x9 Sudoku puzzles.
//!
//! The `grid` module holds the solver state: 81 cells, each with its set of
//! remaining candidate values and a flag recording whether the search has
//! committed the cell.  The `solver` module drives an exhaustive
//! branch-and-propagate search over a work stack of grid snapshots and is
//! proved sound (everything it emits is a valid completion of the seed) and
//! complete (every valid completion of the seed is emitted).

pub mod grid;
pub mod solver;

pub use grid::Cell;
pub use grid::Grid;
pub use grid::KnownValue;
pub use solver::get_neighbours;
pub use solver::solve;
