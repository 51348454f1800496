//! Board state, group and liberty analysis, capture resolution and turn
//! sequencing for a Go-like stone-placement game played against a built-in
//! opponent.

pub mod board;
pub mod groups;
pub mod capture;
pub mod protocol;
pub mod turn;

pub use board::{GameState, Move, MoveError, TileState, BOARD_SIZE, NUM_CELLS};
pub use protocol::parse_move;
pub use turn::{EndReason, Outcome, Reply};
