//! A 4x4 sliding-tile puzzle: a board model with move legality and
//! solvability, and a best-first search that finds a move sequence to the
//! solved configuration.

pub mod board;
pub mod solver;

pub use board::Board;
pub use board::Direction;
pub use board::InvalidMove;
pub use board::ValidationError;
pub use solver::Astar;
