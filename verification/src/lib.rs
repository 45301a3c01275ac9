//! The grid engine of a sliding-tile puzzle on a 4x4 board.
//!
//! Tiles are powers of two. A move shifts all tiles in one of four directions;
//! two equal tiles that meet merge into one of twice the value, which counts
//! as points. After every move that changed the board a new tile appears in
//! an empty cell. The game is over when the board is full and no two
//! neighbours are equal.
//!
//! - [`grid`]: the board and its cells.
//! - [`line`]: what a move does to one line of four cells.
//! - [`moves`]: moves of the whole board.
//! - [`terminal`]: the end of a game.
//! - [`spawn`]: new tiles.
//! - [`game`]: a game with its score, from start to end.
//! - [`saved_score`]: the text that keeps the best score between runs.
//! - [`line_lemmas`], [`move_lemmas`]: what holds of every line and of every
//!   board after a move.
//!
//! Drawing, keys and files are left to the program around this library.

pub mod game;
pub mod grid;
pub mod line;
pub mod line_lemmas;
pub mod move_lemmas;
pub mod moves;
pub mod saved_score;
pub mod spawn;
pub mod terminal;

pub use game::{Game, MoveOutcome, Phase};
pub use grid::Grid;
pub use moves::{Direction, MoveResult};
pub use spawn::SpawnError;
