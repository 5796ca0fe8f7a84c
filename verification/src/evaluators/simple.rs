//! The evaluator that knows finished games only.

use vstd::prelude::*;
use crate::games::{Game, GameState, Player};
use crate::evaluators::{Evaluator, INFINITY, outcome_value};

verus! {

/// Values a finished game by its outcome and every other position as 0. A
/// win is worth `INFINITY` however long the game took.
#[derive(Clone, Copy, Debug)]
pub struct SimpleEval {}

impl SimpleEval {
    /// The evaluator that knows finished games only.
    pub fn new() -> SimpleEval {
        SimpleEval {  }
    }
}

/// The evaluator that knows finished games only gives every position, seen
/// from one side, the negated value of the same position seen from the
/// other side.
pub proof fn lemma_simple_eval_antisymmetric<G: Game>()
    ensures
        crate::search::antisymmetric::<G, SimpleEval>(SimpleEval {  }),
{
}

impl<G: Game> Evaluator<G> for SimpleEval {
    open spec fn value_of(&self, board: G, player: Player) -> int {
        outcome_value(board.state(), player)
    }

    fn value(&self, board: &G, player: Player) -> (v: i64) {
        match board.game_state() {
            GameState::Won(p) => {
                if p == player {
                    INFINITY
                } else {
                    -INFINITY
                }
            },
            GameState::Draw => 0,
            GameState::InProgress => 0,
        }
    }

    proof fn lemma_value_of(&self, board: G, player: Player) {
    }
}

} // verus!
