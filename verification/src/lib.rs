//! Decision engine for an 8x8 two-player disc-flipping board game
//! (Reversi/Othello rules): board model, move generation and legality,
//! move application with disc flipping, a depth-bounded minimax search
//! with alpha-beta pruning, and a weighted positional evaluator.
//!
//! Evaluation scores are exact rationals, so every comparison made by the
//! search is exact and the alpha-beta search is proved to return the same
//! move and value as the un-pruned minimax over the same game tree.

pub mod board;
pub mod rational;
pub mod moves;
pub mod apply;
pub mod heuristic;
pub mod search;

pub use heuristic::AgentPlayer;
pub use search::play;
pub use apply::make_move;
pub use moves::get_move_scores;
pub use moves::get_legal_moves;
pub use board::Disc;
pub use board::Board;
pub use board::get_opponent;
