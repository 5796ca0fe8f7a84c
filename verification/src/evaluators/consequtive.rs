//! The evaluator that weighs six features of a position: how many empty
//! cells the player, and the opponent, has 1, 2, and 3 pieces next to.
//!
//! Features and parameters are fixed-point numbers. A feature is counted in
//! units of 1/1024; a value is the sum of the products of parameters and
//! features and so has the unit of the parameters divided by 1024.

use vstd::prelude::*;
use crate::bitboard::cell;
use crate::evaluators::{
    Evaluator, Trainable, INFINITY, bounded_sum, outcome_value, params_after,
};
use crate::games::connect4;
use crate::games::connect4::Connect4;
use crate::games::stack4;
use crate::games::stack4::Stack4;
use crate::games::{GameState, Player};

verus! {

/// How many cells in a row hold `code`, going from `(x, y)` in steps of
/// `(dx, dy)`, the cell `(x, y)` itself not counted, and at most `n`.
pub open spec fn streak(board: u128, x: int, y: int, dx: int, dy: int, code: u8, n: nat) -> int
    decreases n,
{
    if n == 0 || !connect4::holds(board, x + dx, y + dy, code) {
        0
    } else {
        1 + streak(board, x + dx, y + dy, dx, dy, code, (n - 1) as nat)
    }
}

/// How many pieces with `code` the cell `(x, y)` has next to it in a row in
/// direction `d`, both ways taken together, counted up to 3. The directions
/// are, in order, `(1, 0)`, `(1, 1)`, `(0, 1)` and `(-1, 1)`.
pub open spec fn reach(board: u128, x: int, y: int, d: int, code: u8) -> int {
    let dx = if d == 0 || d == 1 {
        1int
    } else if d == 2 {
        0int
    } else {
        -1int
    };
    let dy = if d == 0 {
        0int
    } else {
        1int
    };
    let both = streak(board, x, y, dx, dy, code, 7) + streak(board, x, y, -dx, -dy, code, 7);
    if both > 3 {
        3
    } else {
        both
    }
}

/// Whether cell number `k` is empty and has, in at least one of the four
/// directions, `l` pieces with `code` next to it in a row.
pub open spec fn touches(board: u128, k: int, code: u8, l: int) -> bool {
    let (x, y) = (k % 7, k / 7);
    &&& cell(board, k) == 0
    &&& (reach(board, x, y, 0, code) == l || reach(board, x, y, 1, code) == l || reach(
        board,
        x,
        y,
        2,
        code,
    ) == l || reach(board, x, y, 3, code) == l)
}

/// How many of the first `n` cells are empty and have `l` pieces with `code`
/// next to them in a row.
pub open spec fn touching(board: u128, n: int, code: u8, l: int) -> int
    decreases n,
{
    if n <= 0 {
        0
    } else if touches(board, n - 1, code, l) {
        touching(board, n - 1, code, l) + 1
    } else {
        touching(board, n - 1, code, l)
    }
}

/// The six counts of a position, as `player` sees it: the empty cells next
/// to which `player` has 1, 2, and 3 or more pieces in a row, and the same
/// three counts for the opponent.
pub open spec fn counts(board: u128, player: Player) -> Seq<u32> {
    seq![
        touching(board, 42, player.code_spec(), 1) as u32,
        touching(board, 42, player.code_spec(), 2) as u32,
        touching(board, 42, player.code_spec(), 3) as u32,
        touching(board, 42, player.other().code_spec(), 1) as u32,
        touching(board, 42, player.other().code_spec(), 2) as u32,
        touching(board, 42, player.other().code_spec(), 3) as u32,
    ]
}

/// Among `n` cells at most `n` are counted.
pub proof fn lemma_touching_bound(board: u128, n: int, code: u8, l: int)
    requires
        0 <= n,
    ensures
        0 <= touching(board, n, code, l) <= n,
    decreases n,
{
    if n > 0 {
        lemma_touching_bound(board, n - 1, code, l);
    }
}

/// How many pieces of `player` lie in a row next to `pos`, going from `pos`
/// in steps of `dir`.
pub fn pieces_in_row(board: &Connect4, pos: [usize; 2], dir: [i32; 2], player: Player) -> (n: u32)
    requires
        pos[0] < 7,
        pos[1] < 6,
        -1 <= dir[0] <= 1,
        -1 <= dir[1] <= 1,
    ensures
        n == streak(
            board.board,
            pos[0] as int,
            pos[1] as int,
            dir[0] as int,
            dir[1] as int,
            player.code_spec(),
            7,
        ),
        n <= 7,
{
    let code = player.code();
    let mut cx: i32 = pos[0] as i32;
    let mut cy: i32 = pos[1] as i32;
    let mut k: u32 = 0;
    let mut open = true;
    while k < 7 && open
        invariant
            k <= 7,
            code == player.code_spec(),
            connect4::on_board(cx as int, cy as int),
            -1 <= dir[0] <= 1,
            -1 <= dir[1] <= 1,
            open ==> streak(
                board.board,
                pos[0] as int,
                pos[1] as int,
                dir[0] as int,
                dir[1] as int,
                code,
                7,
            ) == k + streak(
                board.board,
                cx as int,
                cy as int,
                dir[0] as int,
                dir[1] as int,
                code,
                (7 - k) as nat,
            ),
            !open ==> streak(
                board.board,
                pos[0] as int,
                pos[1] as int,
                dir[0] as int,
                dir[1] as int,
                code,
                7,
            ) == k,
        decreases 7 - k + (if open {
            1int
        } else {
            0int
        }),
    {
        let nx = cx + dir[0];
        let ny = cy + dir[1];
        if board.in_board(nx, ny) && board.get(nx as usize, ny as usize) == code {
            cx = nx;
            cy = ny;
            k += 1;
        } else {
            open = false;
        }
    }
    k
}

/// How many pieces with the code of `player` the cell `(x, y)` has next to
/// it in a row in direction `d`, both ways taken together, counted up to 3.
fn reach_of(board: &Connect4, x: usize, y: usize, d: usize, player: Player) -> (l: u32)
    requires
        x < 7,
        y < 6,
        d < 4,
    ensures
        l == reach(board.board, x as int, y as int, d as int, player.code_spec()),
        l <= 3,
{
    let dx: i32 = if d == 0 || d == 1 {
        1
    } else if d == 2 {
        0
    } else {
        -1
    };
    let dy: i32 = if d == 0 {
        0
    } else {
        1
    };
    let a = pieces_in_row(board, [x, y], [dx, dy], player);
    let b = pieces_in_row(board, [x, y], [-dx, -dy], player);
    if a + b > 3 {
        3
    } else {
        a + b
    }
}

/// The three counts of `player`: the empty cells next to which `player` has
/// 1, 2, and 3 or more pieces in a row in at least one direction.
fn counts_of(board: &Connect4, player: Player) -> (f: (u32, u32, u32))
    ensures
        f.0 == touching(board.board, 42, player.code_spec(), 1),
        f.1 == touching(board.board, 42, player.code_spec(), 2),
        f.2 == touching(board.board, 42, player.code_spec(), 3),
{
    let mut one: u32 = 0;
    let mut two: u32 = 0;
    let mut three: u32 = 0;
    let mut k: usize = 0;
    while k < 42
        invariant
            k <= 42,
            one == touching(board.board, k as int, player.code_spec(), 1),
            two == touching(board.board, k as int, player.code_spec(), 2),
            three == touching(board.board, k as int, player.code_spec(), 3),
        decreases 42 - k,
    {
        proof {
            lemma_touching_bound(board.board, k as int, player.code_spec(), 1);
            lemma_touching_bound(board.board, k as int, player.code_spec(), 2);
            lemma_touching_bound(board.board, k as int, player.code_spec(), 3);
        }
        let x = k % 7;
        let y = k / 7;
        if board.get(x, y) == 0 {
            let r0 = reach_of(board, x, y, 0, player);
            let r1 = reach_of(board, x, y, 1, player);
            let r2 = reach_of(board, x, y, 2, player);
            let r3 = reach_of(board, x, y, 3, player);
            if r0 == 1 || r1 == 1 || r2 == 1 || r3 == 1 {
                one += 1;
            }
            if r0 == 2 || r1 == 2 || r2 == 2 || r3 == 2 {
                two += 1;
            }
            if r0 == 3 || r1 == 3 || r2 == 3 || r3 == 3 {
                three += 1;
            }
        }
        k += 1;
    }
    (one, two, three)
}

/// The six counts of a position, as `player` sees it: the empty cells next
/// to which `player` has 1, 2, and 3 or more pieces in a row, and the same
/// three counts for the opponent.
pub fn feature_counts(board: &Connect4, player: Player) -> (f: Vec<u32>)
    ensures
        f@ == counts(board.board, player),
        f@.len() == 6,
        forall|i: int| 0 <= i < 6 ==> #[trigger] f@[i] <= 42,
{
    let own = counts_of(board, player);
    let theirs = counts_of(board, player.opponent());
    proof {
        lemma_touching_bound(board.board, 42, player.code_spec(), 1);
        lemma_touching_bound(board.board, 42, player.code_spec(), 2);
        lemma_touching_bound(board.board, 42, player.code_spec(), 3);
        lemma_touching_bound(board.board, 42, player.other().code_spec(), 1);
        lemma_touching_bound(board.board, 42, player.other().code_spec(), 2);
        lemma_touching_bound(board.board, 42, player.other().code_spec(), 3);
    }
    let mut f: Vec<u32> = Vec::with_capacity(6);
    f.push(own.0);
    f.push(own.1);
    f.push(own.2);
    f.push(theirs.0);
    f.push(theirs.1);
    f.push(theirs.2);
    assert(f@ =~= counts(board.board, player));
    f
}

/// How many cells in a row hold `code`, going from `(x, y)` in steps of
/// `(dx, dy)`, the cell `(x, y)` itself not counted, and at most `n`.
pub open spec fn stack4_streak(board: u128, x: int, y: int, dx: int, dy: int, code: u8, n: nat) -> int
    decreases n,
{
    if n == 0 || !stack4::holds(board, x + dx, y + dy, code) {
        0
    } else {
        1 + stack4_streak(board, x + dx, y + dy, dx, dy, code, (n - 1) as nat)
    }
}

/// How many pieces with `code` the cell `(x, y)` has next to it in a row in
/// direction `d`, both ways taken together, counted up to 3. The directions
/// are, in order, `(1, 0)`, `(1, 1)`, `(0, 1)` and `(-1, 1)`.
pub open spec fn stack4_reach(board: u128, x: int, y: int, d: int, code: u8) -> int {
    let dx = if d == 0 || d == 1 {
        1int
    } else if d == 2 {
        0int
    } else {
        -1int
    };
    let dy = if d == 0 {
        0int
    } else {
        1int
    };
    let both = stack4_streak(board, x, y, dx, dy, code, 7) + stack4_streak(board, x, y, -dx, -dy, code, 7);
    if both > 3 {
        3
    } else {
        both
    }
}

/// Whether cell number `k` is empty and has, in at least one of the four
/// directions, `l` pieces with `code` next to it in a row.
pub open spec fn stack4_touches(board: u128, k: int, code: u8, l: int) -> bool {
    let (x, y) = (k % 8, k / 8);
    &&& cell(board, k) == 0
    &&& (stack4_reach(board, x, y, 0, code) == l || stack4_reach(board, x, y, 1, code) == l || stack4_reach(
        board,
        x,
        y,
        2,
        code,
    ) == l || stack4_reach(board, x, y, 3, code) == l)
}

/// How many of the first `n` cells are empty and have `l` pieces with `code`
/// next to them in a row.
pub open spec fn stack4_touching(board: u128, n: int, code: u8, l: int) -> int
    decreases n,
{
    if n <= 0 {
        0
    } else if stack4_touches(board, n - 1, code, l) {
        stack4_touching(board, n - 1, code, l) + 1
    } else {
        stack4_touching(board, n - 1, code, l)
    }
}

/// The six counts of a position, as `player` sees it: the empty cells next
/// to which `player` has 1, 2, and 3 or more pieces in a row, and the same
/// three counts for the opponent.
pub open spec fn stack4_counts(board: u128, player: Player) -> Seq<u32> {
    seq![
        stack4_touching(board, 64, player.code_spec(), 1) as u32,
        stack4_touching(board, 64, player.code_spec(), 2) as u32,
        stack4_touching(board, 64, player.code_spec(), 3) as u32,
        stack4_touching(board, 64, player.other().code_spec(), 1) as u32,
        stack4_touching(board, 64, player.other().code_spec(), 2) as u32,
        stack4_touching(board, 64, player.other().code_spec(), 3) as u32,
    ]
}

/// Among `n` cells at most `n` are counted.
pub proof fn lemma_stack4_touching_bound(board: u128, n: int, code: u8, l: int)
    requires
        0 <= n,
    ensures
        0 <= stack4_touching(board, n, code, l) <= n,
    decreases n,
{
    if n > 0 {
        lemma_stack4_touching_bound(board, n - 1, code, l);
    }
}

/// How many pieces of `player` lie in a row next to `pos`, going from `pos`
/// in steps of `dir`.
pub fn pieces_in_row_stack4(board: &Stack4, pos: [usize; 2], dir: [i32; 2], player: Player) -> (n: u32)
    requires
        pos[0] < 8,
        pos[1] < 8,
        -1 <= dir[0] <= 1,
        -1 <= dir[1] <= 1,
    ensures
        n == stack4_streak(
            board.board,
            pos[0] as int,
            pos[1] as int,
            dir[0] as int,
            dir[1] as int,
            player.code_spec(),
            7,
        ),
        n <= 7,
{
    let code = player.code();
    let mut cx: i32 = pos[0] as i32;
    let mut cy: i32 = pos[1] as i32;
    let mut k: u32 = 0;
    let mut open = true;
    while k < 7 && open
        invariant
            k <= 7,
            code == player.code_spec(),
            stack4::on_board(cx as int, cy as int),
            -1 <= dir[0] <= 1,
            -1 <= dir[1] <= 1,
            open ==> stack4_streak(
                board.board,
                pos[0] as int,
                pos[1] as int,
                dir[0] as int,
                dir[1] as int,
                code,
                7,
            ) == k + stack4_streak(
                board.board,
                cx as int,
                cy as int,
                dir[0] as int,
                dir[1] as int,
                code,
                (7 - k) as nat,
            ),
            !open ==> stack4_streak(
                board.board,
                pos[0] as int,
                pos[1] as int,
                dir[0] as int,
                dir[1] as int,
                code,
                7,
            ) == k,
        decreases 7 - k + (if open {
            1int
        } else {
            0int
        }),
    {
        let nx = cx + dir[0];
        let ny = cy + dir[1];
        if Stack4::in_board(nx, ny) && board.get(nx as usize, ny as usize) == code {
            cx = nx;
            cy = ny;
            k += 1;
        } else {
            open = false;
        }
    }
    k
}

/// How many pieces with the code of `player` the cell `(x, y)` has next to
/// it in a row in direction `d`, both ways taken together, counted up to 3.
fn stack4_reach_of(board: &Stack4, x: usize, y: usize, d: usize, player: Player) -> (l: u32)
    requires
        x < 8,
        y < 8,
        d < 4,
    ensures
        l == stack4_reach(board.board, x as int, y as int, d as int, player.code_spec()),
        l <= 3,
{
    let dx: i32 = if d == 0 || d == 1 {
        1
    } else if d == 2 {
        0
    } else {
        -1
    };
    let dy: i32 = if d == 0 {
        0
    } else {
        1
    };
    let a = pieces_in_row_stack4(board, [x, y], [dx, dy], player);
    let b = pieces_in_row_stack4(board, [x, y], [-dx, -dy], player);
    if a + b > 3 {
        3
    } else {
        a + b
    }
}

/// The three counts of `player`: the empty cells next to which `player` has
/// 1, 2, and 3 or more pieces in a row in at least one direction.
fn stack4_counts_of(board: &Stack4, player: Player) -> (f: (u32, u32, u32))
    ensures
        f.0 == stack4_touching(board.board, 64, player.code_spec(), 1),
        f.1 == stack4_touching(board.board, 64, player.code_spec(), 2),
        f.2 == stack4_touching(board.board, 64, player.code_spec(), 3),
{
    let mut one: u32 = 0;
    let mut two: u32 = 0;
    let mut three: u32 = 0;
    let mut k: usize = 0;
    while k < 64
        invariant
            k <= 64,
            one == stack4_touching(board.board, k as int, player.code_spec(), 1),
            two == stack4_touching(board.board, k as int, player.code_spec(), 2),
            three == stack4_touching(board.board, k as int, player.code_spec(), 3),
        decreases 64 - k,
    {
        proof {
            lemma_stack4_touching_bound(board.board, k as int, player.code_spec(), 1);
            lemma_stack4_touching_bound(board.board, k as int, player.code_spec(), 2);
            lemma_stack4_touching_bound(board.board, k as int, player.code_spec(), 3);
        }
        let x = k % 8;
        let y = k / 8;
        if board.get(x, y) == 0 {
            let r0 = stack4_reach_of(board, x, y, 0, player);
            let r1 = stack4_reach_of(board, x, y, 1, player);
            let r2 = stack4_reach_of(board, x, y, 2, player);
            let r3 = stack4_reach_of(board, x, y, 3, player);
            if r0 == 1 || r1 == 1 || r2 == 1 || r3 == 1 {
                one += 1;
            }
            if r0 == 2 || r1 == 2 || r2 == 2 || r3 == 2 {
                two += 1;
            }
            if r0 == 3 || r1 == 3 || r2 == 3 || r3 == 3 {
                three += 1;
            }
        }
        k += 1;
    }
    (one, two, three)
}

/// The six counts of a position, as `player` sees it: the empty cells next
/// to which `player` has 1, 2, and 3 or more pieces in a row, and the same
/// three counts for the opponent.
pub fn feature_counts_stack4(board: &Stack4, player: Player) -> (f: Vec<u32>)
    ensures
        f@ == stack4_counts(board.board, player),
        f@.len() == 6,
        forall|i: int| 0 <= i < 6 ==> #[trigger] f@[i] <= 64,
{
    let own = stack4_counts_of(board, player);
    let theirs = stack4_counts_of(board, player.opponent());
    proof {
        lemma_stack4_touching_bound(board.board, 64, player.code_spec(), 1);
        lemma_stack4_touching_bound(board.board, 64, player.code_spec(), 2);
        lemma_stack4_touching_bound(board.board, 64, player.code_spec(), 3);
        lemma_stack4_touching_bound(board.board, 64, player.other().code_spec(), 1);
        lemma_stack4_touching_bound(board.board, 64, player.other().code_spec(), 2);
        lemma_stack4_touching_bound(board.board, 64, player.other().code_spec(), 3);
    }
    let mut f: Vec<u32> = Vec::with_capacity(6);
    f.push(own.0);
    f.push(own.1);
    f.push(own.2);
    f.push(theirs.0);
    f.push(theirs.1);
    f.push(theirs.2);
    assert(f@ =~= stack4_counts(board.board, player));
    f
}

/// How many units make up one whole in a feature.
pub const FEATURE_UNIT: i64 = 1024;

/// The feature that a count of `n` cells gives: `10 * (1 - exp(-n / 10))`
/// in units of 1/1024, rounded to the nearest unit. Counts above 64 give
/// what 64 gives.
pub open spec fn saturation(n: int) -> int {
    if n == 0 {
        0
    } else if n == 1 {
        974
    } else if n == 2 {
        1856
    } else if n == 3 {
        2654
    } else if n == 4 {
        3376
    } else if n == 5 {
        4029
    } else if n == 6 {
        4620
    } else if n == 7 {
        5155
    } else if n == 8 {
        5639
    } else if n == 9 {
        6077
    } else if n == 10 {
        6473
    } else if n == 11 {
        6831
    } else if n == 12 {
        7156
    } else if n == 13 {
        7449
    } else if n == 14 {
        7715
    } else if n == 15 {
        7955
    } else if n == 16 {
        8173
    } else if n == 17 {
        8369
    } else if n == 18 {
        8547
    } else if n == 19 {
        8708
    } else if n == 20 {
        8854
    } else if n == 21 {
        8986
    } else if n == 22 {
        9105
    } else if n == 23 {
        9213
    } else if n == 24 {
        9311
    } else if n == 25 {
        9399
    } else if n == 26 {
        9479
    } else if n == 27 {
        9552
    } else if n == 28 {
        9617
    } else if n == 29 {
        9677
    } else if n == 30 {
        9730
    } else if n == 31 {
        9779
    } else if n == 32 {
        9823
    } else if n == 33 {
        9862
    } else if n == 34 {
        9898
    } else if n == 35 {
        9931
    } else if n == 36 {
        9960
    } else if n == 37 {
        9987
    } else if n == 38 {
        10011
    } else if n == 39 {
        10033
    } else if n == 40 {
        10052
    } else if n == 41 {
        10070
    } else if n == 42 {
        10086
    } else if n == 43 {
        10101
    } else if n == 44 {
        10114
    } else if n == 45 {
        10126
    } else if n == 46 {
        10137
    } else if n == 47 {
        10147
    } else if n == 48 {
        10156
    } else if n == 49 {
        10164
    } else if n == 50 {
        10171
    } else if n == 51 {
        10178
    } else if n == 52 {
        10184
    } else if n == 53 {
        10189
    } else if n == 54 {
        10194
    } else if n == 55 {
        10198
    } else if n == 56 {
        10202
    } else if n == 57 {
        10206
    } else if n == 58 {
        10209
    } else if n == 59 {
        10212
    } else if n == 60 {
        10215
    } else if n == 61 {
        10217
    } else if n == 62 {
        10219
    } else if n == 63 {
        10221
    } else {
        10223
    }
}

/// The feature that a count of `n` cells gives.
pub fn saturated(n: u32) -> (f: i64)
    ensures
        f == saturation(n as int),
        0 <= f <= 10223,
{
    if n == 0 {
        0
    } else if n == 1 {
        974
    } else if n == 2 {
        1856
    } else if n == 3 {
        2654
    } else if n == 4 {
        3376
    } else if n == 5 {
        4029
    } else if n == 6 {
        4620
    } else if n == 7 {
        5155
    } else if n == 8 {
        5639
    } else if n == 9 {
        6077
    } else if n == 10 {
        6473
    } else if n == 11 {
        6831
    } else if n == 12 {
        7156
    } else if n == 13 {
        7449
    } else if n == 14 {
        7715
    } else if n == 15 {
        7955
    } else if n == 16 {
        8173
    } else if n == 17 {
        8369
    } else if n == 18 {
        8547
    } else if n == 19 {
        8708
    } else if n == 20 {
        8854
    } else if n == 21 {
        8986
    } else if n == 22 {
        9105
    } else if n == 23 {
        9213
    } else if n == 24 {
        9311
    } else if n == 25 {
        9399
    } else if n == 26 {
        9479
    } else if n == 27 {
        9552
    } else if n == 28 {
        9617
    } else if n == 29 {
        9677
    } else if n == 30 {
        9730
    } else if n == 31 {
        9779
    } else if n == 32 {
        9823
    } else if n == 33 {
        9862
    } else if n == 34 {
        9898
    } else if n == 35 {
        9931
    } else if n == 36 {
        9960
    } else if n == 37 {
        9987
    } else if n == 38 {
        10011
    } else if n == 39 {
        10033
    } else if n == 40 {
        10052
    } else if n == 41 {
        10070
    } else if n == 42 {
        10086
    } else if n == 43 {
        10101
    } else if n == 44 {
        10114
    } else if n == 45 {
        10126
    } else if n == 46 {
        10137
    } else if n == 47 {
        10147
    } else if n == 48 {
        10156
    } else if n == 49 {
        10164
    } else if n == 50 {
        10171
    } else if n == 51 {
        10178
    } else if n == 52 {
        10184
    } else if n == 53 {
        10189
    } else if n == 54 {
        10194
    } else if n == 55 {
        10198
    } else if n == 56 {
        10202
    } else if n == 57 {
        10206
    } else if n == 58 {
        10209
    } else if n == 59 {
        10212
    } else if n == 60 {
        10215
    } else if n == 61 {
        10217
    } else if n == 62 {
        10219
    } else if n == 63 {
        10221
    } else {
        10223
    }
}

/// The features that six counts give.
pub open spec fn saturated_all(counts: Seq<u32>) -> Seq<i64> {
    Seq::new(counts.len(), |i: int| saturation(counts[i] as int) as i64)
}

/// The features that the counts give, one by one.
pub fn saturate(counts: &Vec<u32>) -> (f: Vec<i64>)
    ensures
        f@ == saturated_all(counts@),
        forall|i: int| 0 <= i < f@.len() ==> 0 <= #[trigger] f@[i] <= 10223,
{
    let mut f: Vec<i64> = Vec::with_capacity(counts.len());
    let mut i: usize = 0;
    while i < counts.len()
        invariant
            i <= counts@.len(),
            f@.len() == i,
            forall|j: int| 0 <= j < i ==> #[trigger] f@[j] == saturation(counts@[j] as int),
            forall|j: int| 0 <= j < i ==> 0 <= #[trigger] f@[j] <= 10223,
        decreases counts@.len() - i,
    {
        f.push(saturated(counts[i]));
        i += 1;
    }
    assert(f@ =~= saturated_all(counts@));
    f
}

/// The sum of the products of the first `n` parameters and features.
pub open spec fn weighted(params: Seq<i64>, features: Seq<i64>, n: int) -> int
    decreases n,
{
    if n <= 0 {
        0
    } else {
        weighted(params, features, n - 1) + params[n - 1] * features[n - 1]
    }
}

/// The number of products that parameters and features give: that of the
/// shorter of the two.
pub open spec fn pairs(params: Seq<i64>, features: Seq<i64>) -> int {
    if params.len() < features.len() {
        params.len() as int
    } else {
        features.len() as int
    }
}

/// A value cut to lie strictly between the two ends of the scale.
pub open spec fn clipped(v: int) -> int {
    if v >= INFINITY {
        INFINITY - 1
    } else if v <= -INFINITY {
        -INFINITY + 1
    } else {
        v
    }
}

/// The product of a parameter and a feature is bounded by the feature's
/// bound times the greatest parameter.
proof fn lemma_product_bound(p: i64, f: i64)
    by (nonlinear_arith)
    requires
        0 <= f <= 10223,
    ensures
        -94290532332766373085184int <= p * f <= 94290532332766373085184int,
{
}

/// The sum of the products of parameters and features, cut to lie strictly
/// between the two ends of the scale.
pub fn weigh(params: &Vec<i64>, features: &Vec<i64>) -> (v: i64)
    requires
        features@.len() <= 64,
        forall|i: int| 0 <= i < features@.len() ==> 0 <= #[trigger] features@[i] <= 10223,
    ensures
        v == clipped(weighted(params@, features@, pairs(params@, features@))),
        -INFINITY < v < INFINITY,
{
    let n = if params.len() < features.len() {
        params.len()
    } else {
        features.len()
    };
    let mut tot: i128 = 0;
    let mut i: usize = 0;
    while i < n
        invariant
            i <= n,
            n == pairs(params@, features@),
            n <= 64,
            forall|j: int| 0 <= j < features@.len() ==> 0 <= #[trigger] features@[j] <= 10223,
            tot == weighted(params@, features@, i as int),
            -94290532332766373085184int * i <= tot <= 94290532332766373085184int * i,
        decreases n - i,
    {
        let p = params[i];
        let f = features[i];
        proof {
            lemma_product_bound(p, f);
            assert(-94290532332766373085184int <= p * f <= 94290532332766373085184int);
            assert(weighted(params@, features@, i + 1) == tot + p * f);
        }
        let product: i128 = (p as i128) * (f as i128);
        tot = tot + product;
        i += 1;
    }
    if tot >= INFINITY as i128 {
        INFINITY - 1
    } else if tot <= -(INFINITY as i128) {
        -INFINITY + 1
    } else {
        tot as i64
    }
}

/// Values a position by its six features, each weighed with a parameter.
#[derive(Debug)]
pub struct ConsequtiveEval {
    /// The weights of 1, 2, and 3 own pieces in a row, and those of 1, 2,
    /// and 3 pieces of the opponent.
    pub params: Vec<i64>,
}

impl Clone for ConsequtiveEval {
    fn clone(&self) -> (out: Self)
        ensures
            out.params@ == self.params@,
    {
        ConsequtiveEval { params: self.params_copy() }
    }
}

impl ConsequtiveEval {
    /// The evaluator whose six parameters are 0.
    pub fn new() -> (e: Self)
        ensures
            e.params@ == seq![0i64, 0i64, 0i64, 0i64, 0i64, 0i64],
    {
        let mut params: Vec<i64> = Vec::with_capacity(6);
        params.push(0);
        params.push(0);
        params.push(0);
        params.push(0);
        params.push(0);
        params.push(0);
        assert(params@ =~= seq![0i64, 0i64, 0i64, 0i64, 0i64, 0i64]);
        ConsequtiveEval { params }
    }

    /// The six features of a position of the gravity-drop game.
    pub fn features(&self, board: &Connect4, player: Player) -> (f: Vec<i64>)
        ensures
            f@ == saturated_all(counts(board.board, player)),
            f@.len() == 6,
            forall|i: int| 0 <= i < 6 ==> 0 <= #[trigger] f@[i] <= 10223,
    {
        saturate(&feature_counts(board, player))
    }

    /// The six features of a position of the four-sides game.
    pub fn features_stack4(&self, board: &Stack4, player: Player) -> (f: Vec<i64>)
        ensures
            f@ == saturated_all(stack4_counts(board.board, player)),
            f@.len() == 6,
            forall|i: int| 0 <= i < 6 ==> 0 <= #[trigger] f@[i] <= 10223,
    {
        saturate(&feature_counts_stack4(board, player))
    }

    /// Adds `update` to the parameters, element by element, as far as both
    /// reach. A sum stops at the ends of the machine word.
    pub fn add_to_params(&mut self, update: &[i64])
        ensures
            final(self).params@ == params_after(old(self).params@, update@),
    {
        let n = if self.params.len() < update.len() {
            self.params.len()
        } else {
            update.len()
        };
        let mut i: usize = 0;
        while i < n
            invariant
                i <= n,
                n <= update@.len(),
                n <= self.params@.len(),
                n == self.params@.len() || n == update@.len(),
                self.params@.len() == old(self).params@.len(),
                forall|j: int|
                    0 <= j < self.params@.len() ==> #[trigger] self.params@[j] == (if j < i {
                        bounded_sum(old(self).params@[j], update@[j])
                    } else {
                        old(self).params@[j]
                    }),
            decreases n - i,
        {
            let p = self.params[i];
            let d = update[i];
            let sum: i64 = if d > 0 && p > i64::MAX - d {
                i64::MAX
            } else if d < 0 && p < i64::MIN - d {
                i64::MIN
            } else {
                p + d
            };
            self.params[i] = sum;
            i += 1;
        }
        assert(self.params@ =~= params_after(old(self).params@, update@));
    }

    /// A copy of the parameters.
    pub fn params_copy(&self) -> (params: Vec<i64>)
        ensures
            params@ == self.params@,
    {
        let mut params: Vec<i64> = Vec::with_capacity(self.params.len());
        let mut i: usize = 0;
        while i < self.params.len()
            invariant
                i <= self.params@.len(),
                params@.len() == i,
                forall|j: int| 0 <= j < i ==> #[trigger] params@[j] == self.params@[j],
            decreases self.params@.len() - i,
        {
            params.push(self.params[i]);
            i += 1;
        }
        assert(params@ =~= self.params@);
        params
    }
}

impl Evaluator<Connect4> for ConsequtiveEval {
    open spec fn value_of(&self, board: Connect4, player: Player) -> int {
        if board.game_state == GameState::InProgress {
            let f = saturated_all(counts(board.board, player));
            clipped(weighted(self.params@, f, pairs(self.params@, f)))
        } else {
            outcome_value(board.game_state, player)
        }
    }

    fn value(&self, board: &Connect4, player: Player) -> (v: i64) {
        match board.game_state {
            GameState::Won(p) => {
                if p == player {
                    INFINITY
                } else {
                    -INFINITY
                }
            },
            GameState::Draw => 0,
            GameState::InProgress => {
                let features = self.features(board, player);
                weigh(&self.params, &features)
            },
        }
    }

    proof fn lemma_value_of(&self, board: Connect4, player: Player) {
    }
}

impl Trainable<Connect4> for ConsequtiveEval {
    open spec fn learns(&self) -> bool {
        true
    }

    open spec fn value_with(params: Seq<i64>, board: Connect4, player: Player) -> int {
        if board.game_state == GameState::InProgress {
            let f = saturated_all(counts(board.board, player));
            clipped(weighted(params, f, pairs(params, f)))
        } else {
            outcome_value(board.game_state, player)
        }
    }

    open spec fn gradient_with(params: Seq<i64>, board: Connect4, player: Player) -> Seq<i64> {
        saturated_all(counts(board.board, player))
    }

    proof fn lemma_params_decide(&self, board: Connect4, player: Player) {
    }

    fn can_learn(&self) -> (r: bool) {
        true
    }

    open spec fn params_of(&self) -> Seq<i64> {
        self.params@
    }

    open spec fn gradient_of(&self, board: Connect4, player: Player) -> Seq<i64> {
        saturated_all(counts(board.board, player))
    }

    fn gradient(&self, board: &Connect4, player: Player) -> (g: Vec<i64>) {
        self.features(board, player)
    }

    fn apply_update(&mut self, update: &[i64]) {
        self.add_to_params(update)
    }

    fn get_params(&self) -> (params: Vec<i64>) {
        self.params_copy()
    }
}

impl Evaluator<Stack4> for ConsequtiveEval {
    open spec fn value_of(&self, board: Stack4, player: Player) -> int {
        if board.game_state == GameState::InProgress {
            let f = saturated_all(stack4_counts(board.board, player));
            clipped(weighted(self.params@, f, pairs(self.params@, f)))
        } else {
            outcome_value(board.game_state, player)
        }
    }

    fn value(&self, board: &Stack4, player: Player) -> (v: i64) {
        match board.game_state {
            GameState::Won(p) => {
                if p == player {
                    INFINITY
                } else {
                    -INFINITY
                }
            },
            GameState::Draw => 0,
            GameState::InProgress => {
                let features = self.features_stack4(board, player);
                weigh(&self.params, &features)
            },
        }
    }

    proof fn lemma_value_of(&self, board: Stack4, player: Player) {
    }
}

impl Trainable<Stack4> for ConsequtiveEval {
    open spec fn learns(&self) -> bool {
        true
    }

    open spec fn value_with(params: Seq<i64>, board: Stack4, player: Player) -> int {
        if board.game_state == GameState::InProgress {
            let f = saturated_all(stack4_counts(board.board, player));
            clipped(weighted(params, f, pairs(params, f)))
        } else {
            outcome_value(board.game_state, player)
        }
    }

    open spec fn gradient_with(params: Seq<i64>, board: Stack4, player: Player) -> Seq<i64> {
        saturated_all(stack4_counts(board.board, player))
    }

    proof fn lemma_params_decide(&self, board: Stack4, player: Player) {
    }

    fn can_learn(&self) -> (r: bool) {
        true
    }

    open spec fn params_of(&self) -> Seq<i64> {
        self.params@
    }

    open spec fn gradient_of(&self, board: Stack4, player: Player) -> Seq<i64> {
        saturated_all(stack4_counts(board.board, player))
    }

    fn gradient(&self, board: &Stack4, player: Player) -> (g: Vec<i64>) {
        self.features_stack4(board, player)
    }

    fn apply_update(&mut self, update: &[i64]) {
        self.add_to_params(update)
    }

    fn get_params(&self) -> (params: Vec<i64>) {
        self.params_copy()
    }
}

/// For the feature evaluator the gradient of a position in progress is its
/// vector of features, and its value is the sum of the products of
/// parameters and features, cut to lie strictly between the two ends of the
/// scale.
pub proof fn lemma_value_is_weighted_features(e: ConsequtiveEval, board: Connect4, player: Player)
    requires
        board.game_state == GameState::InProgress,
    ensures
        Trainable::<Connect4>::gradient_of(&e, board, player) == saturated_all(
            counts(board.board, player),
        ),
        Evaluator::<Connect4>::value_of(&e, board, player) == clipped(
            weighted(
                e.params@,
                Trainable::<Connect4>::gradient_of(&e, board, player),
                pairs(e.params@, Trainable::<Connect4>::gradient_of(&e, board, player)),
            ),
        ),
{
}

/// The same for the four-sides game.
pub proof fn lemma_value_is_weighted_features_stack4(
    e: ConsequtiveEval,
    board: Stack4,
    player: Player,
)
    requires
        board.game_state == GameState::InProgress,
    ensures
        Trainable::<Stack4>::gradient_of(&e, board, player) == saturated_all(
            stack4_counts(board.board, player),
        ),
        Evaluator::<Stack4>::value_of(&e, board, player) == clipped(
            weighted(
                e.params@,
                Trainable::<Stack4>::gradient_of(&e, board, player),
                pairs(e.params@, Trainable::<Stack4>::gradient_of(&e, board, player)),
            ),
        ),
{
}

} // verus!
