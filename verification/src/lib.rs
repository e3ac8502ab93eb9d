//! Five-in-a-row on a 15 by 15 grid: a computer opponent whose board
//! tracking, position fingerprints, win detection, candidate generation,
//! pattern evaluation and depth-limited negamax search with alpha-beta
//! pruning are verified against their specifications.
//!
//! - [`board`]: the grid and sets of its cells.
//! - [`position`]: the mathematical model of a game in progress.
//! - [`zobrist`]: fingerprints of layouts.
//! - [`win`]: five in a row.
//! - [`shape`]: the table of shapes and the windows that are scored.
//! - [`eval`]: the heuristic value of a position.
//! - [`ai`]: the engine and the moves it commits.
//! - [`candidates`]: the cells that the search tries, in order.
//! - [`search`]: negamax with alpha-beta pruning.
//! - [`laws`], [`order_laws`], [`search_laws`], [`minimax`]: what is proved
//!   of them together.

pub mod board;
pub mod position;
pub mod shape;
pub mod zobrist;
pub mod win;
pub mod eval;
pub mod ai;
pub mod candidates;
pub mod order_laws;
pub mod search;
pub mod search_laws;
pub mod laws;
pub mod minimax;

pub use crate::ai::{GameState, AI};
pub use crate::board::{CellSet, BOARD_SIZE};
pub use crate::zobrist::GobangZobrist;
