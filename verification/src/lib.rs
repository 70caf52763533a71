//! Optimal solving of N×N sliding-tile puzzles.
//!
//! A board is a [`PuzzleState`]; its mathematical model is a [`Grid`].
pub mod best_first;
pub mod frontier;
pub mod grid;
pub mod laws;
pub mod node;
pub mod puzzle_state;
pub mod reached;
pub mod reading;
pub mod solver;
pub mod text;
pub mod text_laws;
pub mod walk;
pub mod writing;

pub use grid::Grid;
pub use best_first::solve_best_first;
pub use puzzle_state::PuzzleState;
pub use solver::solver;
pub use solver::SolveError;
