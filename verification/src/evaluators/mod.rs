//! Evaluators: what a position is worth to a player.
//!
//! Values are integers. The two ends of the scale, `INFINITY` and
//! `-INFINITY`, are kept for games that are won and lost, so that a search
//! recognises a forced line by its value alone.

use vstd::prelude::*;
use crate::games::connect4::Connect4;
use crate::games::stack4::Stack4;
use crate::games::{Game, GameState, Player};

pub mod consequtive;
pub mod lines;
pub mod simple;

pub use consequtive::ConsequtiveEval;
pub use lines::LinesEval;
pub use simple::SimpleEval;

verus! {

/// The value of a won game. Its negation is the value of a lost game.
pub const INFINITY: i64 = 9223372036854775807;

/// The value that every evaluator gives to a finished game: `INFINITY` if
/// `player` has won, `-INFINITY` if the opponent has, 0 for a draw.
pub open spec fn outcome_value(state: GameState, player: Player) -> int {
    match state {
        GameState::Won(p) => if p == player {
            INFINITY as int
        } else {
            -INFINITY
        },
        _ => 0,
    }
}

/// An estimate of the value of positions of the game `G`.
pub trait Evaluator<G: Game> {
    /// The value of `board` to `player`.
    spec fn value_of(&self, board: G, player: Player) -> int;

    /// The estimated value of `board` to `player`.
    fn value(&self, board: &G, player: Player) -> (v: i64)
        ensures
            v == self.value_of(*board, player),
    ;

    /// The values of several positions at once, for evaluators that are
    /// better at computing in batch.
    fn values(&self, boards: &Vec<G>, player: Player) -> (vs: Vec<i64>)
        ensures
            vs@.len() == boards@.len(),
            forall|i: int|
                0 <= i < boards@.len() ==> #[trigger] vs@[i] == self.value_of(boards@[i], player),
    {
        let mut vs: Vec<i64> = Vec::with_capacity(boards.len());
        let mut i: usize = 0;
        while i < boards.len()
            invariant
                i <= boards@.len(),
                vs@.len() == i,
                forall|j: int|
                    0 <= j < i ==> #[trigger] vs@[j] == self.value_of(boards@[j], player),
            decreases boards@.len() - i,
        {
            vs.push(self.value(&boards[i], player));
            i += 1;
        }
        vs
    }

    /// A finished game is worth `INFINITY` to the winner, `-INFINITY` to the
    /// loser and 0 to both after a draw; a game in progress has a value
    /// strictly between the two ends of the scale.
    proof fn lemma_value_of(&self, board: G, player: Player)
        ensures
            board.state() != GameState::InProgress ==> self.value_of(board, player)
                == outcome_value(board.state(), player),
            board.state() == GameState::InProgress ==> -INFINITY < self.value_of(board, player)
                < INFINITY,
    ;
}

/// The sum of two parameters, which stops at the ends of the machine word.
pub open spec fn bounded_sum(a: i64, b: i64) -> i64 {
    if a + b > i64::MAX {
        i64::MAX
    } else if a + b < i64::MIN {
        i64::MIN
    } else {
        (a + b) as i64
    }
}

/// The parameters after `update` is added to them, element by element, as
/// far as both reach.
pub open spec fn params_after(params: Seq<i64>, update: Seq<i64>) -> Seq<i64> {
    Seq::new(
        params.len(),
        |i: int|
            if i < update.len() {
                bounded_sum(params[i], update[i])
            } else {
                params[i]
            },
    )
}

/// An evaluator with parameters that learning changes.
pub trait Trainable<G: Game>: Evaluator<G> {
    /// Whether the evaluator has parameters to learn.
    spec fn learns(&self) -> bool;

    /// The parameters.
    spec fn params_of(&self) -> Seq<i64>;

    /// The derivative of the value of `board` to `player` by each of the
    /// parameters.
    spec fn gradient_of(&self, board: G, player: Player) -> Seq<i64>;

    /// The value that an evaluator of this kind with the parameters
    /// `params` gives `board`, seen by `player`.
    spec fn value_with(params: Seq<i64>, board: G, player: Player) -> int;

    /// The derivative of that value by each of the parameters.
    spec fn gradient_with(params: Seq<i64>, board: G, player: Player) -> Seq<i64>;

    /// The parameters of an evaluator that learns decide its values and its
    /// gradients.
    proof fn lemma_params_decide(&self, board: G, player: Player)
        requires
            self.learns(),
        ensures
            self.value_of(board, player) == Self::value_with(self.params_of(), board, player),
            self.gradient_of(board, player) == Self::gradient_with(
                self.params_of(),
                board,
                player,
            ),
    ;

    /// Whether the evaluator has parameters to learn.
    fn can_learn(&self) -> (r: bool)
        ensures
            r == self.learns(),
    ;

    /// The derivative of the value by each of the parameters, at the
    /// parameters as they are. Not asked for finished games.
    fn gradient(&self, board: &G, player: Player) -> (g: Vec<i64>)
        requires
            self.learns(),
            board.state() == GameState::InProgress,
        ensures
            g@ == self.gradient_of(*board, player),
    ;

    /// Adds `update` to the parameters, element by element.
    fn apply_update(&mut self, update: &[i64])
        requires
            old(self).learns(),
        ensures
            final(self).learns(),
            final(self).params_of() == params_after(old(self).params_of(), update@),
    ;

    /// The parameters, for inspection.
    fn get_params(&self) -> (params: Vec<i64>)
        requires
            self.learns(),
        ensures
            params@ == self.params_of(),
    ;
}

/// The evaluators of the four-sides game.
pub enum Stack4Evaluators {
    Simple(SimpleEval),
    Consequtive(ConsequtiveEval),
}

impl Evaluator<Stack4> for Stack4Evaluators {
    open spec fn value_of(&self, board: Stack4, player: Player) -> int {
        match self {
            Stack4Evaluators::Simple(eval) => Evaluator::<Stack4>::value_of(eval, board, player),
            Stack4Evaluators::Consequtive(eval) => Evaluator::<Stack4>::value_of(eval, board, player),
        }
    }

    fn value(&self, board: &Stack4, player: Player) -> (v: i64) {
        match self {
            Stack4Evaluators::Simple(eval) => Evaluator::<Stack4>::value(eval, board, player),
            Stack4Evaluators::Consequtive(eval) => Evaluator::<Stack4>::value(eval, board, player),
        }
    }

    fn values(&self, boards: &Vec<Stack4>, player: Player) -> (vs: Vec<i64>) {
        match self {
            Stack4Evaluators::Simple(eval) => Evaluator::<Stack4>::values(eval, boards, player),
            Stack4Evaluators::Consequtive(eval) => Evaluator::<Stack4>::values(eval, boards, player),
        }
    }

    proof fn lemma_value_of(&self, board: Stack4, player: Player) {
        match self {
            Stack4Evaluators::Simple(eval) => Evaluator::<Stack4>::lemma_value_of(eval, board, player),
            Stack4Evaluators::Consequtive(eval) => Evaluator::<Stack4>::lemma_value_of(eval, board, player),
        }
    }
}

impl Trainable<Stack4> for Stack4Evaluators {
    open spec fn learns(&self) -> bool {
        self is Consequtive
    }

    open spec fn value_with(params: Seq<i64>, board: Stack4, player: Player) -> int {
        <ConsequtiveEval as Trainable<Stack4>>::value_with(params, board, player)
    }

    open spec fn gradient_with(params: Seq<i64>, board: Stack4, player: Player) -> Seq<i64> {
        <ConsequtiveEval as Trainable<Stack4>>::gradient_with(params, board, player)
    }

    proof fn lemma_params_decide(&self, board: Stack4, player: Player) {
        match self {
            Stack4Evaluators::Consequtive(eval) => Trainable::<Stack4>::lemma_params_decide(
                eval,
                board,
                player,
            ),
            _ => {},
        }
    }

    fn can_learn(&self) -> (r: bool) {
        match self {
            Stack4Evaluators::Simple(_) => false,
            Stack4Evaluators::Consequtive(_) => true,
        }
    }

    open spec fn params_of(&self) -> Seq<i64> {
        match self {
            Stack4Evaluators::Simple(_) => Seq::empty(),
            Stack4Evaluators::Consequtive(eval) => eval.params@,
        }
    }

    open spec fn gradient_of(&self, board: Stack4, player: Player) -> Seq<i64> {
        match self {
            Stack4Evaluators::Simple(_) => Seq::empty(),
            Stack4Evaluators::Consequtive(eval) => Trainable::<Stack4>::gradient_of(eval, board, player),
        }
    }

    fn gradient(&self, board: &Stack4, player: Player) -> (g: Vec<i64>) {
        match self {
            Stack4Evaluators::Simple(_) => Vec::new(),
            Stack4Evaluators::Consequtive(eval) => Trainable::<Stack4>::gradient(eval, board, player),
        }
    }

    fn apply_update(&mut self, update: &[i64]) {
        match self {
            Stack4Evaluators::Simple(_) => {},
            Stack4Evaluators::Consequtive(eval) => Trainable::<Stack4>::apply_update(eval, update),
        }
    }

    fn get_params(&self) -> (params: Vec<i64>) {
        match self {
            Stack4Evaluators::Simple(_) => Vec::new(),
            Stack4Evaluators::Consequtive(eval) => Trainable::<Stack4>::get_params(eval),
        }
    }
}

/// The evaluators of the gravity-drop game.
pub enum Connect4Evaluators {
    Simple(SimpleEval),
    Lines(LinesEval),
    Consequtive(ConsequtiveEval),
}

impl Evaluator<Connect4> for Connect4Evaluators {
    open spec fn value_of(&self, board: Connect4, player: Player) -> int {
        match self {
            Connect4Evaluators::Simple(eval) => Evaluator::<Connect4>::value_of(eval, board, player),
            Connect4Evaluators::Lines(eval) => Evaluator::<Connect4>::value_of(eval, board, player),
            Connect4Evaluators::Consequtive(eval) => Evaluator::<Connect4>::value_of(eval, board, player),
        }
    }

    fn value(&self, board: &Connect4, player: Player) -> (v: i64) {
        match self {
            Connect4Evaluators::Simple(eval) => Evaluator::<Connect4>::value(eval, board, player),
            Connect4Evaluators::Lines(eval) => Evaluator::<Connect4>::value(eval, board, player),
            Connect4Evaluators::Consequtive(eval) => Evaluator::<Connect4>::value(eval, board, player),
        }
    }

    fn values(&self, boards: &Vec<Connect4>, player: Player) -> (vs: Vec<i64>) {
        match self {
            Connect4Evaluators::Simple(eval) => Evaluator::<Connect4>::values(eval, boards, player),
            Connect4Evaluators::Lines(eval) => Evaluator::<Connect4>::values(eval, boards, player),
            Connect4Evaluators::Consequtive(eval) => Evaluator::<Connect4>::values(eval, boards, player),
        }
    }

    proof fn lemma_value_of(&self, board: Connect4, player: Player) {
        match self {
            Connect4Evaluators::Simple(eval) => Evaluator::<Connect4>::lemma_value_of(eval, board, player),
            Connect4Evaluators::Lines(eval) => Evaluator::<Connect4>::lemma_value_of(eval, board, player),
            Connect4Evaluators::Consequtive(eval) => Evaluator::<Connect4>::lemma_value_of(eval, board, player),
        }
    }
}

impl Trainable<Connect4> for Connect4Evaluators {
    open spec fn learns(&self) -> bool {
        self is Consequtive
    }

    open spec fn value_with(params: Seq<i64>, board: Connect4, player: Player) -> int {
        <ConsequtiveEval as Trainable<Connect4>>::value_with(params, board, player)
    }

    open spec fn gradient_with(params: Seq<i64>, board: Connect4, player: Player) -> Seq<i64> {
        <ConsequtiveEval as Trainable<Connect4>>::gradient_with(params, board, player)
    }

    proof fn lemma_params_decide(&self, board: Connect4, player: Player) {
        match self {
            Connect4Evaluators::Consequtive(eval) => Trainable::<Connect4>::lemma_params_decide(
                eval,
                board,
                player,
            ),
            _ => {},
        }
    }

    fn can_learn(&self) -> (r: bool) {
        match self {
            Connect4Evaluators::Simple(_) => false,
            Connect4Evaluators::Lines(_) => false,
            Connect4Evaluators::Consequtive(_) => true,
        }
    }

    open spec fn params_of(&self) -> Seq<i64> {
        match self {
            Connect4Evaluators::Simple(_) => Seq::empty(),
            Connect4Evaluators::Lines(_) => Seq::empty(),
            Connect4Evaluators::Consequtive(eval) => eval.params@,
        }
    }

    open spec fn gradient_of(&self, board: Connect4, player: Player) -> Seq<i64> {
        match self {
            Connect4Evaluators::Simple(_) => Seq::empty(),
            Connect4Evaluators::Lines(_) => Seq::empty(),
            Connect4Evaluators::Consequtive(eval) => Trainable::<Connect4>::gradient_of(eval, board, player),
        }
    }

    fn gradient(&self, board: &Connect4, player: Player) -> (g: Vec<i64>) {
        match self {
            Connect4Evaluators::Simple(_) => Vec::new(),
            Connect4Evaluators::Lines(_) => Vec::new(),
            Connect4Evaluators::Consequtive(eval) => Trainable::<Connect4>::gradient(eval, board, player),
        }
    }

    fn apply_update(&mut self, update: &[i64]) {
        match self {
            Connect4Evaluators::Simple(_) => {},
            Connect4Evaluators::Lines(_) => {},
            Connect4Evaluators::Consequtive(eval) => Trainable::<Connect4>::apply_update(eval, update),
        }
    }

    fn get_params(&self) -> (params: Vec<i64>) {
        match self {
            Connect4Evaluators::Simple(_) => Vec::new(),
            Connect4Evaluators::Lines(_) => Vec::new(),
            Connect4Evaluators::Consequtive(eval) => Trainable::<Connect4>::get_params(eval),
        }
    }
}

} // verus!
