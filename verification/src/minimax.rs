//! Minimax in its plain form: one player seeks the greatest value, the
//! other the least, and every position is valued from the same side.

use vstd::prelude::*;
use crate::evaluators::{Evaluator, INFINITY};
use crate::games::{Game, GameState, Player};
use crate::search::{antisymmetric, best_reply, negamax_value, reply_value};

verus! {

/// The minimax value of `board` to `player`, looking `depth` plies ahead:
/// the evaluator's value to `player` where the game is over or no ply is
/// left; otherwise the greatest of the values after each legal move if
/// `maximizing`, and the least if not.
pub open spec fn minimax_value<G: Game, E: Evaluator<G>>(
    e: E,
    board: G,
    depth: nat,
    player: Player,
    maximizing: bool,
) -> int
    decreases depth, 1nat, 0nat,
{
    if board.state() != GameState::InProgress || depth == 0 {
        e.value_of(board, player)
    } else {
        extreme_reply(e, board, depth, player, maximizing, board.moves().len())
    }
}

/// The greatest, if `maximizing`, or the least of the values after the
/// first `n` legal moves on `board`; `-INFINITY`, or `INFINITY`, if `n` is
/// 0.
pub open spec fn extreme_reply<G: Game, E: Evaluator<G>>(
    e: E,
    board: G,
    depth: nat,
    player: Player,
    maximizing: bool,
    n: nat,
) -> int
    decreases depth, 0nat, n,
{
    if n == 0 || depth == 0 {
        if maximizing {
            -INFINITY
        } else {
            INFINITY as int
        }
    } else {
        let rest = extreme_reply(e, board, depth, player, maximizing, (n - 1) as nat);
        let this = minimax_value(
            e,
            board.after(board.moves()[n - 1]),
            (depth - 1) as nat,
            player,
            !maximizing,
        );
        if maximizing == (this > rest) {
            this
        } else {
            rest
        }
    }
}

/// Every minimax value lies between `-INFINITY` and `INFINITY`.
pub proof fn lemma_minimax_range<G: Game, E: Evaluator<G>>(
    e: E,
    board: G,
    depth: nat,
    player: Player,
    maximizing: bool,
)
    ensures
        -INFINITY <= minimax_value(e, board, depth, player, maximizing) <= INFINITY,
    decreases depth, 1nat, 0nat,
{
    if board.state() != GameState::InProgress || depth == 0 {
        e.lemma_value_of(board, player);
    } else {
        lemma_extreme_range(e, board, depth, player, maximizing, board.moves().len());
    }
}

/// Every extreme reply lies between `-INFINITY` and `INFINITY`.
pub proof fn lemma_extreme_range<G: Game, E: Evaluator<G>>(
    e: E,
    board: G,
    depth: nat,
    player: Player,
    maximizing: bool,
    n: nat,
)
    ensures
        -INFINITY <= extreme_reply(e, board, depth, player, maximizing, n) <= INFINITY,
    decreases depth, 0nat, n,
{
    if n > 0 && depth > 0 {
        lemma_extreme_range(e, board, depth, player, maximizing, (n - 1) as nat);
        lemma_minimax_range(
            e,
            board.after(board.moves()[n - 1]),
            (depth - 1) as nat,
            player,
            !maximizing,
        );
    }
}

/// With an evaluator that gives every position, seen from one side, the
/// negated value of the same position seen from the other side, minimax and
/// negamax agree: where `player` seeks the greatest value, minimax is the
/// negamax value to `player`; where `player` seeks the least, it is the
/// negated negamax value to the opponent.
pub proof fn lemma_minimax_is_negamax<G: Game, E: Evaluator<G>>(
    e: E,
    board: G,
    depth: nat,
    player: Player,
    maximizing: bool,
)
    requires
        antisymmetric::<G, E>(e),
    ensures
        minimax_value(e, board, depth, player, maximizing) == (if maximizing {
            negamax_value(e, board, depth, player)
        } else {
            -negamax_value(e, board, depth, player.other())
        }),
    decreases depth, 1nat, 0nat,
{
    if board.state() != GameState::InProgress || depth == 0 {
        assert(e.value_of(board, player) == -e.value_of(board, player.other()));
    } else {
        lemma_extreme_is_best(e, board, depth, player, maximizing, board.moves().len());
    }
}

/// The same for the values after the first `n` moves.
pub proof fn lemma_extreme_is_best<G: Game, E: Evaluator<G>>(
    e: E,
    board: G,
    depth: nat,
    player: Player,
    maximizing: bool,
    n: nat,
)
    requires
        antisymmetric::<G, E>(e),
        depth > 0,
    ensures
        extreme_reply(e, board, depth, player, maximizing, n) == (if maximizing {
            best_reply(e, board, depth, player, n)
        } else {
            -best_reply(e, board, depth, player.other(), n)
        }),
    decreases depth, 0nat, n,
{
    if n > 0 {
        let next = board.after(board.moves()[n - 1]);
        lemma_extreme_is_best(e, board, depth, player, maximizing, (n - 1) as nat);
        lemma_minimax_is_negamax(e, next, (depth - 1) as nat, player, !maximizing);
        assert(player.other().other() == player);
        assert(reply_value(e, board, depth, player, n - 1) == -negamax_value(
            e,
            next,
            (depth - 1) as nat,
            player.other(),
        ));
        assert(reply_value(e, board, depth, player.other(), n - 1) == -negamax_value(
            e,
            next,
            (depth - 1) as nat,
            player,
        ));
    }
}

/// Minimax on a board that is played on and handed back as it was.
fn _minimax<G: Game, E: Evaluator<G>>(
    board: &mut G,
    depth: u32,
    ismaximizing: bool,
    evaluator: &E,
    player: Player,
) -> (value: i64)
    where
        G::Action: Copy,
    requires
        old(board).valid(),
    ensures
        *final(board) == *old(board),
        value == minimax_value(*evaluator, *old(board), depth as nat, player, ismaximizing),
    decreases depth,
{
    if depth == 0 || board.game_state() != GameState::InProgress {
        return evaluator.value(board, player);
    }
    let ghost start = *board;
    let actions = board.legal_actions();
    let mut value: i64 = if ismaximizing {
        -INFINITY
    } else {
        INFINITY
    };
    let mut i: usize = 0;
    while i < actions.len()
        invariant
            i <= actions@.len(),
            *board == start,
            start.valid(),
            start.state() == GameState::InProgress,
            actions@ == start.moves(),
            depth > 0,
            value == extreme_reply(
                *evaluator,
                start,
                depth as nat,
                player,
                ismaximizing,
                i as nat,
            ),
        decreases actions@.len() - i,
    {
        let action = actions[i];
        proof {
            assert(start.moves().contains(action));
            G::lemma_play_and_reverse(start, action);
        }
        board.play_action(action);
        let v = _minimax(board, depth - 1, !ismaximizing, evaluator, player);
        board.reverse_last_action(action);
        if ismaximizing == (v > value) {
            value = v;
        }
        i += 1;
    }
    value
}

/// The minimax value of `board` to `player`, who seeks the greatest value,
/// looking `depth` plies ahead.
pub fn minimax<G: Game, E: Evaluator<G>>(
    board: &G,
    depth: u32,
    evaluator: &E,
    player: Player,
) -> (value: i64)
    where
        G::Action: Copy,
    requires
        board.valid(),
    ensures
        value == minimax_value(*evaluator, *board, depth as nat, player, true),
{
    let mut position = *board;
    _minimax(&mut position, depth, true, evaluator, player)
}

/// The minimax value to `player` of playing `action` on `board`, looking
/// `depth` plies ahead from the position after the move, in which the
/// opponent seeks the least value. The board is handed back as it was.
pub fn minimax_action<G: Game, E: Evaluator<G>>(
    board: &mut G,
    action: G::Action,
    depth: u32,
    evaluator: &E,
    player: Player,
) -> (value: i64)
    where
        G::Action: Copy,
    requires
        old(board).valid(),
        old(board).state() == GameState::InProgress,
        old(board).moves().contains(action),
    ensures
        *final(board) == *old(board),
        value == minimax_value(
            *evaluator,
            old(board).after(action),
            depth as nat,
            player,
            false,
        ),
{
    proof {
        G::lemma_play_and_reverse(*board, action);
    }
    board.play_action(action);
    let v = _minimax(board, depth, false, evaluator, player);
    board.reverse_last_action(action);
    v
}

} // verus!
