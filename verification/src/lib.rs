//! An Othello (Reversi) engine: board setup, legal moves, disc flipping,
//! turn passing, game-over detection and scoring.
//!
//! The rules are stated once, as spec functions over [`rules::GameState`],
//! and every operation of [`Game`] is proved against them.
pub mod player;
pub mod position;
pub mod rules;
pub mod game;
pub mod error;
pub mod laws;
pub mod strategy;
pub mod search;
pub mod text;

pub use player::{Cell, DiscCounts, MoveResult, Player};
pub use position::{Position, SIZE};
pub use game::Game;
pub use error::MoveError;
pub use strategy::{GreedyStrategy, Strategy};
pub use search::MinimaxStrategy;
pub use text::{ai_move_text, final_result_text, hint_text, move_result_text, no_moves_text};
