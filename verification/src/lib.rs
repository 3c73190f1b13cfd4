//! Rules, scoring and room logic of Equate, a Scrabble-like board game whose
//! tiles are digits and operators and whose words are correct equations.
//!
//! - `tile`, `board`: tiles, the standard bag, the board and its premium squares.
//! - `rational`, `equation`: exact arithmetic and the reading of a line of
//!   tiles as an equation.
//! - `validation`, `scoring`: the placement rules for a move, and its score.
//! - `game`: one game's state; `room`, `lobby`, `messages`: players, turns and
//!   what the server tells them.
//! - `text`: numbers and fractions written out.

pub mod board;
pub mod equation;
pub mod game;
pub mod lobby;
pub mod messages;
pub mod rational;
pub mod room;
pub mod scoring;
pub mod text;
pub mod tile;
pub mod validation;

pub use board::Board;
pub use game::GameState;
pub use tile::{Operator, PlacedTile, Tile, TileKind};
pub use validation::ValidationError;
