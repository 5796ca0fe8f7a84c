//! The evaluator that counts pieces along lines.

use vstd::prelude::*;
use crate::evaluators::{Evaluator, INFINITY, outcome_value};
use crate::games::connect4::{Connect4, at, on_board};
use crate::games::{Game, GameState, Player, TileStates};

verus! {

/// Values a position of the gravity-drop game by the pieces that `player`
/// has along its rows, columns and rising diagonals.
#[derive(Clone, Copy, Debug)]
pub struct LinesEval {}

/// The place of the last piece of the opponent of `player` among the tiles
/// up to place `i`, or -1 if there is none.
pub open spec fn last_opponent(line: Seq<TileStates>, player: Player, i: int) -> int
    decreases i + 1,
{
    if i < 0 {
        -1
    } else if line[i] == TileStates::Full(player.other()) {
        i
    } else {
        last_opponent(line, player, i - 1)
    }
}

/// How many pieces `player` has among the tiles up to place `i` that come
/// after the last piece of the opponent.
pub open spec fn own_since(line: Seq<TileStates>, player: Player, i: int) -> int
    decreases i + 1,
{
    if i < 0 {
        0
    } else if line[i] == TileStates::Full(player.other()) {
        0
    } else if line[i] == TileStates::Full(player) {
        own_since(line, player, i - 1) + 1
    } else {
        own_since(line, player, i - 1)
    }
}

/// The value of the first `n` tiles of a line: every place that has no
/// piece of the opponent on itself or on the three tiles before it adds the
/// number of own pieces since the last piece of the opponent.
pub open spec fn line_score(line: Seq<TileStates>, player: Player, n: int) -> int
    decreases n,
{
    if n <= 0 {
        0
    } else {
        line_score(line, player, n - 1) + (if (n - 1) - last_opponent(line, player, n - 1) >= 4 {
            own_since(line, player, n - 1)
        } else {
            0
        })
    }
}

/// The tiles from `(x, y)` on in steps of `(dx, dy)` up to the edge of the
/// board, and at most `n` of them.
pub open spec fn line_from(board: u128, x: int, y: int, dx: int, dy: int, n: nat) -> Seq<
    TileStates,
>
    decreases n,
{
    if n == 0 || !on_board(x, y) {
        Seq::empty()
    } else {
        seq![TileStates::of_code(at(board, x, y))] + line_from(
            board,
            x + dx,
            y + dy,
            dx,
            dy,
            (n - 1) as nat,
        )
    }
}

/// The value of the three lines that start at `(x, y)`: the one that goes
/// up, the one that goes right and the one that rises to the right.
pub open spec fn lines_at(board: u128, player: Player, x: int, y: int) -> int {
    let up = line_from(board, x, y, 0, 1, 7);
    let right = line_from(board, x, y, 1, 0, 7);
    let rising = line_from(board, x, y, 1, 1, 7);
    line_score(up, player, up.len() as int) + line_score(right, player, right.len() as int)
        + line_score(rising, player, rising.len() as int)
}

/// Where the lines start: at the six cells of the first column, from the
/// bottom up, and then at the first six cells of the bottom row.
pub open spec fn line_start(s: int) -> (int, int) {
    if s < 6 {
        (0, s)
    } else {
        (s - 6, 0)
    }
}

/// The value of the lines of the first `n` starts.
pub open spec fn lines_score(board: u128, player: Player, n: int) -> int
    decreases n,
{
    if n <= 0 {
        0
    } else {
        lines_score(board, player, n - 1) + lines_at(
            board,
            player,
            line_start(n - 1).0,
            line_start(n - 1).1,
        )
    }
}

/// Among the tiles up to place `i` at most `i + 1` are own pieces, and a
/// line of `n` tiles is worth at most `n * 7` if it is no longer than 7.
pub proof fn lemma_line_score_bound(line: Seq<TileStates>, player: Player, n: int)
    requires
        0 <= n <= 7,
    ensures
        0 <= line_score(line, player, n) <= 7 * n,
        0 <= own_since(line, player, n - 1) <= n,
    decreases n,
{
    if n > 0 {
        lemma_line_score_bound(line, player, n - 1);
    }
}

/// A line is no longer than the number of tiles asked for.
pub proof fn lemma_line_from_len(board: u128, x: int, y: int, dx: int, dy: int, n: nat)
    ensures
        line_from(board, x, y, dx, dy, n).len() <= n,
    decreases n,
{
    if n > 0 && on_board(x, y) {
        lemma_line_from_len(board, x + dx, y + dy, dx, dy, (n - 1) as nat);
    }
}

/// The lines of one start are worth at most 147.
pub proof fn lemma_lines_at_bound(board: u128, player: Player, x: int, y: int)
    ensures
        0 <= lines_at(board, player, x, y) <= 147,
{
    let up = line_from(board, x, y, 0, 1, 7);
    let right = line_from(board, x, y, 1, 0, 7);
    let rising = line_from(board, x, y, 1, 1, 7);
    lemma_line_from_len(board, x, y, 0, 1, 7);
    lemma_line_from_len(board, x, y, 1, 0, 7);
    lemma_line_from_len(board, x, y, 1, 1, 7);
    lemma_line_score_bound(up, player, up.len() as int);
    lemma_line_score_bound(right, player, right.len() as int);
    lemma_line_score_bound(rising, player, rising.len() as int);
}

/// The lines of `n` starts are worth at most `147 * n`.
pub proof fn lemma_lines_score_bound(board: u128, player: Player, n: int)
    requires
        0 <= n,
    ensures
        0 <= lines_score(board, player, n) <= 147 * n,
    decreases n,
{
    if n > 0 {
        lemma_lines_score_bound(board, player, n - 1);
        lemma_lines_at_bound(board, player, line_start(n - 1).0, line_start(n - 1).1);
    }
}

impl LinesEval {
    /// The evaluator that counts pieces along lines.
    pub fn new() -> LinesEval {
        LinesEval {  }
    }

    /// The value of a line of tiles to `player`.
    pub fn line_value(&self, v: &Vec<TileStates>, player: Player) -> (totv: i64)
        requires
            v@.len() <= 7,
        ensures
            totv == line_score(v@, player, v@.len() as int),
            0 <= totv <= 49,
    {
        let mut last_opponent_at: i32 = -1;
        let mut count: u32 = 0;
        let mut totv: i64 = 0;
        let mut i: usize = 0;
        while i < v.len()
            invariant
                i <= v@.len() <= 7,
                last_opponent_at == last_opponent(v@, player, i - 1),
                -1 <= last_opponent_at < i,
                count == own_since(v@, player, i - 1),
                totv == line_score(v@, player, i as int),
                0 <= count <= i,
                0 <= totv <= 7 * i,
            decreases v@.len() - i,
        {
            proof {
                lemma_line_score_bound(v@, player, i + 1);
            }
            match v[i] {
                TileStates::Empty => {},
                TileStates::Full(p) => {
                    if p != player {
                        last_opponent_at = i as i32;
                        count = 0;
                    } else {
                        count += 1;
                    }
                },
            }
            if i as i32 - last_opponent_at >= 4 {
                totv += count as i64;
            }
            i += 1;
        }
        totv
    }

    /// The tiles from `(x, y)` on in steps of `(dx, dy)` up to the edge of
    /// the board.
    fn line_of(board: &Connect4, x: usize, y: usize, dx: i32, dy: i32) -> (line: Vec<TileStates>)
        requires
            x < 7,
            y < 6,
            0 <= dx <= 1,
            0 <= dy <= 1,
        ensures
            line@ == line_from(board.board, x as int, y as int, dx as int, dy as int, 7),
            line@.len() <= 7,
    {
        let mut line: Vec<TileStates> = Vec::with_capacity(7);
        let mut cx: i32 = x as i32;
        let mut cy: i32 = y as i32;
        let mut k: u32 = 0;
        proof {
            lemma_line_from_len(board.board, x as int, y as int, dx as int, dy as int, 7);
        }
        while k < 7 && board.in_board(cx, cy)
            invariant
                k <= 7,
                0 <= cx <= 7 + k,
                0 <= cy <= 7 + k,
                0 <= dx <= 1,
                0 <= dy <= 1,
                line@.len() == k,
                line@ + line_from(
                    board.board,
                    cx as int,
                    cy as int,
                    dx as int,
                    dy as int,
                    (7 - k) as nat,
                ) =~= line_from(board.board, x as int, y as int, dx as int, dy as int, 7),
            decreases 7 - k,
        {
            let ghost before = line@;
            let ghost rest = line_from(
                board.board,
                cx + dx,
                cy + dy,
                dx as int,
                dy as int,
                (7 - k - 1) as nat,
            );
            let tile = TileStates::from_code(board.get(cx as usize, cy as usize));
            line.push(tile);
            proof {
                assert(line_from(
                    board.board,
                    cx as int,
                    cy as int,
                    dx as int,
                    dy as int,
                    (7 - k) as nat,
                ) =~= seq![tile] + rest);
                assert(line@ + rest =~= before + (seq![tile] + rest));
            }
            cx = cx + dx;
            cy = cy + dy;
            k += 1;
        }
        proof {
            assert(line_from(
                board.board,
                cx as int,
                cy as int,
                dx as int,
                dy as int,
                (7 - k) as nat,
            ) =~= Seq::<TileStates>::empty());
            assert(line@ + Seq::<TileStates>::empty() =~= line@);
        }
        line
    }

    /// The value of all lines that start in the first column or in the
    /// bottom row.
    pub fn lines_evaluation(&self, board: &Connect4, player: Player) -> (total: i64)
        ensures
            total == lines_score(board.board, player, 12),
            0 <= total <= 1764,
    {
        let mut total: i64 = 0;
        let mut s: usize = 0;
        while s < 12
            invariant
                s <= 12,
                total == lines_score(board.board, player, s as int),
                0 <= total <= 147 * s,
            decreases 12 - s,
        {
            let (x, y): (usize, usize) = if s < 6 {
                (0, s)
            } else {
                (s - 6, 0)
            };
            proof {
                lemma_lines_at_bound(board.board, player, x as int, y as int);
            }
            let up = LinesEval::line_of(board, x, y, 0, 1);
            let right = LinesEval::line_of(board, x, y, 1, 0);
            let rising = LinesEval::line_of(board, x, y, 1, 1);
            total += self.line_value(&up, player);
            total += self.line_value(&right, player);
            total += self.line_value(&rising, player);
            s += 1;
        }
        total
    }
}

impl Evaluator<Connect4> for LinesEval {
    open spec fn value_of(&self, board: Connect4, player: Player) -> int {
        if board.game_state == GameState::InProgress {
            lines_score(board.board, player, 12)
        } else {
            outcome_value(board.game_state, player)
        }
    }

    fn value(&self, board: &Connect4, player: Player) -> (v: i64) {
        match board.game_state {
            GameState::Won(p) => {
                if p == player {
                    INFINITY
                } else {
                    -INFINITY
                }
            },
            GameState::Draw => 0,
            GameState::InProgress => self.lines_evaluation(board, player),
        }
    }

    proof fn lemma_value_of(&self, board: Connect4, player: Player) {
        lemma_lines_score_bound(board.board, player, 12);
    }
}

} // verus!
