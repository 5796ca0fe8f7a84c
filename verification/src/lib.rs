//! A two-player board-game engine: packed bitboards for two four-in-a-row
//! games, an adversarial search over them, and the evaluators, policies,
//! agents and learner built on top of the search.
//!
//! Values are integers: evaluators count in fixed-point numbers, and the two
//! ends of the scale stand for games that are won and lost.

pub mod agents;
pub mod bitboard;
pub mod evaluators;
pub mod games;
pub mod matchmaker;
pub mod minimax;
pub mod policies;
pub mod protocol;
pub mod qlearning;
mod random;
pub mod search;
mod small;
