//! The four-sides game: eight by eight cells, a piece goes to the first
//! empty cell that is met when moving inward from an edge, four in a line
//! wins.

use vstd::prelude::*;
use crate::bitboard::{
    cell, with_cell, get_cell, set_cell, no_cell_empty, lemma_with_cell, lemma_with_cell_undo,
    lemma_cell_zero, lemma_cell_bound, marked, is_marked, mark, lemma_none_marked, filled,
    lemma_filled_bound, lemma_filled_zero, lemma_filled_write, lemma_moved_cells_count,
    lemma_same_cells,
};
use crate::small::{cells_of, small_new, small_push, small_into_vec};
use crate::games::{Game, GameState, Player};

verus! {

/// The number of columns, and of rows.
pub const BOARD_SIZE: usize = 8;

/// The coordinates `(x, y)` of the cell that takes the piece.
pub type Action = (usize, usize);

/// A position of the game. Cell `(x, y)` is cell number `x + 8 * y` of the
/// board word.
#[derive(Clone, Copy, PartialEq, Eq, Debug)]
pub struct Stack4 {
    pub board: u128,
    pub cur_player: Player,
    pub game_state: GameState,
    /// How many moves have been played.
    pub nb_moves: u32,
}

/// Whether `(x, y)` names a cell of the board.
pub open spec fn on_board(x: int, y: int) -> bool {
    0 <= x < 8 && 0 <= y < 8
}

/// The code of cell `(x, y)` of the board word.
pub open spec fn at(board: u128, x: int, y: int) -> u8 {
    cell(board, x + 8 * y)
}

/// Whether `(x, y)` is on the board and holds `code`.
pub open spec fn holds(board: u128, x: int, y: int, code: u8) -> bool {
    on_board(x, y) && at(board, x, y) == code
}

/// Horizontal step of direction `d`: the directions are, in order,
/// `(1, 0)`, `(0, 1)`, `(1, 1)` and `(-1, 1)`.
pub open spec fn dir_x(d: int) -> int {
    if d == 0 {
        1
    } else if d == 1 {
        0
    } else if d == 2 {
        1
    } else {
        -1
    }
}

/// Vertical step of direction `d`.
pub open spec fn dir_y(d: int) -> int {
    if d == 0 {
        0
    } else {
        1
    }
}

/// Four cells in a row, starting at `(x, y)` and going in direction `d`, all
/// on the board and all holding `code`.
pub open spec fn four_from(board: u128, x: int, y: int, d: int, code: u8) -> bool {
    &&& holds(board, x, y, code)
    &&& holds(board, x + dir_x(d), y + dir_y(d), code)
    &&& holds(board, x + 2 * dir_x(d), y + 2 * dir_y(d), code)
    &&& holds(board, x + 3 * dir_x(d), y + 3 * dir_y(d), code)
}

/// Some line of four cells in direction `d` passes through `(x, y)` and
/// holds, in all four cells, what `(x, y)` holds.
pub open spec fn line_through(board: u128, x: int, y: int, d: int) -> bool {
    let code = at(board, x, y);
    ||| four_from(board, x, y, d, code)
    ||| four_from(board, x - dir_x(d), y - dir_y(d), d, code)
    ||| four_from(board, x - 2 * dir_x(d), y - 2 * dir_y(d), d, code)
    ||| four_from(board, x - 3 * dir_x(d), y - 3 * dir_y(d), d, code)
}

/// At least one of the four directions through `(x, y)` holds four or more
/// consecutive cells with the piece of `(x, y)`.
pub open spec fn wins_at(board: u128, x: int, y: int) -> bool {
    ||| line_through(board, x, y, 0)
    ||| line_through(board, x, y, 1)
    ||| line_through(board, x, y, 2)
    ||| line_through(board, x, y, 3)
}

/// How many of the three cells that follow `(x, y)` in steps of `(dx, dy)`
/// hold `code`, counted up to the first that does not.
pub open spec fn run(board: u128, x: int, y: int, dx: int, dy: int, code: u8) -> int {
    if !holds(board, x + dx, y + dy, code) {
        0
    } else if !holds(board, x + 2 * dx, y + 2 * dy, code) {
        1
    } else if !holds(board, x + 3 * dx, y + 3 * dy, code) {
        2
    } else {
        3
    }
}

/// Some four cells in a line hold the same piece.
pub open spec fn has_line(board: u128) -> bool {
    exists|x: int, y: int, d: int|
        0 <= d < 4 && at(board, x, y) != 0 && #[trigger] four_from(board, x, y, d, at(board, x, y))
}

/// No cell is empty.
pub open spec fn full(board: u128) -> bool {
    forall|k: int| 0 <= k < 64 ==> #[trigger] cell(board, k) != 0
}

/// Whether `who` would have four in a line with a piece at `(x, y)`.
pub open spec fn completes_line(board: u128, x: int, y: int, who: Player) -> bool {
    wins_at(with_cell(board, x + 8 * y, who.code_spec()), x, y)
}

/// How a cell looks to `player`: 1 for an own piece, -1 for a piece of the
/// opponent, 0 for an empty cell.
pub open spec fn sign_of(code: u8, player: Player) -> i8 {
    if code == player.code_spec() {
        1i8
    } else if code == player.other().code_spec() {
        (-1i8)
    } else {
        0i8
    }
}

/// Where a quarter turn, made `n` times around the centre of the board,
/// takes the column and the row of `(x, y)`.
pub open spec fn turned(x: int, y: int, n: int) -> (int, int) {
    if n % 4 == 0 {
        (x, y)
    } else if n % 4 == 1 {
        (7 - y, x)
    } else if n % 4 == 2 {
        (7 - x, 7 - y)
    } else {
        (y, 7 - x)
    }
}

/// The number of the cell to which `n` quarter turns take cell `k`.
pub open spec fn turned_cell(k: int, n: int) -> int {
    let t = turned(k % 8, k / 8, n);
    t.0 + 8 * t.1
}

/// The board word in which the first `k` cells of `board` have been put
/// where `n` quarter turns take them, and nothing else.
pub open spec fn turned_upto(board: u128, n: int, k: int) -> u128
    decreases k,
{
    if k <= 0 {
        0
    } else {
        with_cell(turned_upto(board, n, k - 1), turned_cell(k - 1, n), cell(board, k - 1))
    }
}

/// The board word turned by `n` quarter turns.
pub open spec fn rotated(board: u128, n: int) -> u128 {
    turned_upto(board, n, 64)
}

/// The two bits of column 0 in each of the eight rows.
pub const COLUMN_0: u128 = 0x3_0003_0003_0003_0003_0003_0003_0003;

/// The board word mirrored around the middle of the board: column `x`
/// changes places with column `7 - x`.
pub open spec fn mirrored(board: u128) -> u128 {
    ((board & COLUMN_0) << 14) | ((board & (COLUMN_0 << 2)) << 10) | ((board & (COLUMN_0 << 4))
        << 6) | ((board & (COLUMN_0 << 6)) << 2) | ((board & (COLUMN_0 << 8)) >> 2) | ((board & (
    COLUMN_0 << 10)) >> 6) | ((board & (COLUMN_0 << 12)) >> 10) | ((board & (COLUMN_0 << 14))
        >> 14)
}

proof fn lemma_bv_mirrored(board: u128, x: u128, y: u128)
    by (bit_vector)
    requires
        x < 8,
        y < 8,
    ensures
        (mirrored(board) >> ((2 * (x + 8 * y)) as u128)) & 3u128 == (board >> ((2 * ((7 - x) + 8
            * y)) as u128)) & 3u128,
{
}

/// Mirroring moves the content of column `x` to column `7 - x`.
pub proof fn lemma_mirrored(board: u128)
    ensures
        forall|x: int, y: int|
            on_board(x, y) ==> #[trigger] at(mirrored(board), x, y) == at(board, 7 - x, y),
{
    assert forall|x: int, y: int| on_board(x, y) implies #[trigger] at(mirrored(board), x, y)
        == at(board, 7 - x, y) by {
        lemma_bv_mirrored(board, x as u128, y as u128);
    }
}

/// Turning is one to one on the cells of the board.
pub proof fn lemma_turned_cell(k: int, j: int, n: int)
    requires
        0 <= k < 64,
        0 <= j < 64,
    ensures
        0 <= turned_cell(k, n) < 64,
        turned_cell(k, n) == turned_cell(j, n) ==> k == j,
{
}

/// After the first `k` cells are put in their places, each of them is found
/// there and every other place is empty.
pub proof fn lemma_turned_upto(board: u128, n: int, k: int)
    requires
        0 <= k <= 64,
    ensures
        forall|j: int|
            0 <= j < k ==> #[trigger] cell(turned_upto(board, n, k), turned_cell(j, n)) == cell(
                board,
                j,
            ),
        forall|j: int|
            k <= j < 64 ==> #[trigger] cell(turned_upto(board, n, k), turned_cell(j, n)) == 0,
    decreases k,
{
    let cur = turned_upto(board, n, k);
    if k == 0 {
        assert forall|j: int| 0 <= j < 64 implies #[trigger] cell(cur, turned_cell(j, n)) == 0 by {
            lemma_turned_cell(j, j, n);
            lemma_cell_zero(turned_cell(j, n));
        }
    } else {
        lemma_turned_upto(board, n, k - 1);
        let prev = turned_upto(board, n, k - 1);
        lemma_turned_cell(k - 1, k - 1, n);
        lemma_cell_bound(board, k - 1);
        lemma_with_cell(prev, turned_cell(k - 1, n), cell(board, k - 1));
        assert forall|j: int| 0 <= j < 64 implies #[trigger] cell(cur, turned_cell(j, n)) == (if j
            < k {
            cell(board, j)
        } else {
            0
        }) by {
            lemma_turned_cell(j, k - 1, n);
            if j != k - 1 {
                assert(cell(prev, turned_cell(j, n)) == (if j < k - 1 {
                    cell(board, j)
                } else {
                    0
                }));
            }
        }
    }
}

/// A board that is not turned stays as it is.
pub proof fn lemma_turned_identity(board: u128)
    ensures
        rotated(board, 0) == board,
{
    lemma_turned_upto(board, 0, 64);
    assert forall|k: int| 0 <= k < 64 implies #[trigger] cell(rotated(board, 0), k) == cell(
        board,
        k,
    ) by {
        assert(turned_cell(k, 0) == k);
        assert(cell(turned_upto(board, 0, 64), turned_cell(k, 0)) == cell(board, k));
    }
    crate::bitboard::lemma_same_cells(rotated(board, 0), board);
}

/// The turned board holds at the turned place of every cell what the cell
/// held.
pub proof fn lemma_rotated(board: u128, n: int)
    ensures
        forall|x: int, y: int|
            on_board(x, y) ==> #[trigger] at(rotated(board, n), turned(x, y, n).0, turned(x, y, n).1)
                == at(board, x, y),
{
    lemma_turned_upto(board, n, 64);
    assert forall|x: int, y: int| on_board(x, y) implies #[trigger] at(
        rotated(board, n),
        turned(x, y, n).0,
        turned(x, y, n).1,
    ) == at(board, x, y) by {
        let k = x + 8 * y;
        assert(k % 8 == x && k / 8 == y);
        assert(cell(turned_upto(board, n, 64), turned_cell(k, n)) == cell(board, k));
    }
}

/// The rank or file that is tried at place `i`: those near the centre come
/// first.
pub open spec fn slot_order(i: int) -> int {
    if i == 0 {
        3
    } else if i == 1 {
        4
    } else if i == 2 {
        2
    } else if i == 3 {
        5
    } else if i == 4 {
        1
    } else if i == 5 {
        6
    } else if i == 6 {
        0
    } else {
        7
    }
}

/// The cell that probe `p` meets after `k` steps. There are 32 probes: four
/// for each rank or file, which start at the bottom, the right, the top and
/// the left edge and move inward.
pub open spec fn probe_cell(p: int, k: int) -> (int, int) {
    let c = slot_order(p / 4);
    let e = p % 4;
    if e == 0 {
        (c, k)
    } else if e == 1 {
        (7 - k, c)
    } else if e == 2 {
        (7 - c, 7 - k)
    } else {
        (k, 7 - c)
    }
}

/// The number of steps, from `k` on, after which probe `p` meets its first
/// empty cell; 8 if it meets none.
pub open spec fn first_empty(board: u128, p: int, k: int) -> int
    decreases 8 - k,
{
    if k >= 8 {
        8
    } else if at(board, probe_cell(p, k).0, probe_cell(p, k).1) == 0 {
        k
    } else {
        first_empty(board, p, k + 1)
    }
}

/// The number of the cell that probe `p` finds, or -1 if its rank or file
/// is full.
pub open spec fn found(board: u128, p: int) -> int {
    let k = first_empty(board, p, 0);
    if k >= 8 {
        -1
    } else {
        probe_cell(p, k).0 + 8 * probe_cell(p, k).1
    }
}

/// Whether one of the first `n` probes finds cell `idx`.
pub open spec fn found_before(board: u128, n: int, idx: int) -> bool
    decreases n,
{
    n > 0 && (found_before(board, n - 1, idx) || found(board, n - 1) == idx)
}

/// The group of a move: 0 if it wins at once for `mover`, 1 if it takes the
/// cell with which the opponent would win at once, 2 for every other move.
#[verifier::opaque]
pub open spec fn group_of(board: u128, mover: Player, idx: int) -> int {
    if completes_line(board, idx % 8, idx / 8, mover) {
        0
    } else if completes_line(board, idx % 8, idx / 8, mover.other()) {
        1
    } else {
        2
    }
}

/// The moves of group `group` that the first `n` probes find, each once, in
/// the order in which they are found.
pub open spec fn picked(board: u128, mover: Player, n: int, group: int) -> Seq<Action>
    decreases n,
{
    if n <= 0 {
        Seq::empty()
    } else {
        let prev = picked(board, mover, n - 1, group);
        let idx = found(board, n - 1);
        if idx >= 0 && !found_before(board, n - 1, idx) && group_of(board, mover, idx) == group {
            prev.push(((idx % 8) as usize, (idx / 8) as usize))
        } else {
            prev
        }
    }
}

/// The legal moves: the first empty cell that is met from each edge along
/// each rank and file, each cell once; the moves that win at once come
/// first, then those that stop the opponent from winning at once, then the
/// others, and within each group those of the central ranks and files.
pub open spec fn legal_moves(board: u128, mover: Player) -> Seq<Action> {
    picked(board, mover, 32, 0) + picked(board, mover, 32, 1) + picked(board, mover, 32, 2)
}

/// A probe that has met no empty cell before step `k` finds what it finds
/// from step `k` on.
proof fn lemma_first_empty(board: u128, p: int, i: int, k: int)
    requires
        0 <= i <= k <= 8,
        forall|j: int|
            i <= j < k ==> at(board, #[trigger] probe_cell(p, j).0, probe_cell(p, j).1) != 0,
    ensures
        first_empty(board, p, i) == first_empty(board, p, k),
    decreases k - i,
{
    if i < k {
        assert(at(board, probe_cell(p, i).0, probe_cell(p, i).1) != 0);
        lemma_first_empty(board, p, i + 1, k);
    }
}

/// Whether the cell `(x, y)` can be reached from some edge by moving inward
/// along its rank or file without passing an empty cell.
pub open spec fn propped(board: u128, x: int, y: int) -> bool {
    ||| forall|i: int| 0 <= i < x ==> #[trigger] at(board, i, y) != 0
    ||| forall|i: int| x < i < 8 ==> #[trigger] at(board, i, y) != 0
    ||| forall|j: int| 0 <= j < y ==> #[trigger] at(board, x, j) != 0
    ||| forall|j: int| y < j < 8 ==> #[trigger] at(board, x, j) != 0
}

impl Stack4 {
    /// The code of cell `(x, y)`.
    pub open spec fn cell_at(&self, x: int, y: int) -> u8 {
        at(self.board, x, y)
    }

    /// What holds of every position that play can reach: no cell holds the
    /// code 3, every piece can be reached from an edge over pieces, the game
    /// is in progress exactly when no line of four exists and a cell is
    /// empty, and as many moves are counted as pieces lie on the board.
    pub open spec fn wf(&self) -> bool {
        &&& forall|k: int| 0 <= k < 64 ==> #[trigger] cell(self.board, k) <= 2
        &&& forall|x: int, y: int|
            on_board(x, y) && #[trigger] at(self.board, x, y) != 0 ==> propped(self.board, x, y)
        &&& self.game_state == GameState::InProgress <==> !has_line(self.board) && !full(
            self.board,
        )
        &&& self.nb_moves == filled(self.board, 64)
    }

    /// The position after the mover puts a piece on `action`.
    pub open spec fn play_spec(&self, action: Action) -> Stack4 {
        let board = with_cell(self.board, action.0 + 8 * action.1, self.cur_player.code_spec());
        Stack4 {
            board,
            cur_player: self.cur_player.other(),
            game_state: if wins_at(board, action.0 as int, action.1 as int) {
                GameState::Won(self.cur_player)
            } else if full(board) {
                GameState::Draw
            } else {
                GameState::InProgress
            },
            nb_moves: (self.nb_moves + 1) as u32,
        }
    }

    /// The position after the piece on `action` is taken back.
    pub open spec fn reverse_spec(&self, action: Action) -> Stack4 {
        Stack4 {
            board: with_cell(self.board, action.0 + 8 * action.1, 0),
            cur_player: self.cur_player.other(),
            game_state: GameState::InProgress,
            nb_moves: (self.nb_moves - 1) as u32,
        }
    }

    /// The empty board, Red to move.
    pub fn new() -> (b: Stack4)
        ensures
            b.board == 0,
            b.cur_player == Player::Red,
            b.game_state == GameState::InProgress,
            b.nb_moves == 0,
            b.wf(),
    {
        proof {
            lemma_start_wf();
        }
        Stack4 { board: 0, cur_player: Player::Red, game_state: GameState::InProgress, nb_moves: 0 }
    }

    /// Whether `(x, y)` names a cell of the board.
    pub fn in_board(x: i32, y: i32) -> (r: bool)
        ensures
            r == on_board(x as int, y as int),
    {
        x >= 0 && y >= 0 && x < 8 && y < 8
    }

    /// The code of cell `(x, y)`: 0 for empty, 1 for Red, 2 for Yellow.
    pub fn get(&self, x: usize, y: usize) -> (code: u8)
        requires
            x + 8 * y < 64,
        ensures
            code == self.cell_at(x as int, y as int),
            code <= 3,
    {
        get_cell(self.board, x + y * BOARD_SIZE)
    }

    /// Stores the code `v` in cell `(x, y)` and leaves every other cell, the
    /// mover, the state and the count of moves as they are.
    pub fn set(&mut self, x: usize, y: usize, v: u8)
        requires
            x + 8 * y < 64,
            v <= 3,
        ensures
            final(self).board == with_cell(old(self).board, x + 8 * y, v),
            final(self).cur_player == old(self).cur_player,
            final(self).game_state == old(self).game_state,
            final(self).nb_moves == old(self).nb_moves,
            forall|j: int|
                0 <= j < 64 ==> #[trigger] cell(final(self).board, j) == (if j == x + 8 * y {
                    v
                } else {
                    cell(old(self).board, j)
                }),
    {
        self.board = set_cell(self.board, x + y * BOARD_SIZE, v);
    }

    /// Whether the cell `(sx, sy)` steps away from `(x, y)` is on the board
    /// and holds `code`.
    fn holds_at(&self, x: usize, y: usize, sx: i32, sy: i32, code: u8) -> (r: bool)
        requires
            x < 8,
            y < 8,
            -3 <= sx <= 3,
            -3 <= sy <= 3,
        ensures
            r == holds(self.board, x + sx, y + sy, code),
    {
        let cx: i32 = x as i32 + sx;
        let cy: i32 = y as i32 + sy;
        Stack4::in_board(cx, cy) && self.get(cx as usize, cy as usize) == code
    }

    /// Counts, up to three, the cells that follow `(x, y)` in steps of
    /// `(dx, dy)` and hold `code`, stopping at the first that does not.
    fn count_run(&self, x: usize, y: usize, dx: i32, dy: i32, code: u8) -> (n: u32)
        requires
            x < 8,
            y < 8,
            -1 <= dx <= 1,
            -1 <= dy <= 1,
        ensures
            n == run(self.board, x as int, y as int, dx as int, dy as int, code),
            n <= 3,
    {
        if !self.holds_at(x, y, dx, dy, code) {
            0
        } else if !self.holds_at(x, y, 2 * dx, 2 * dy, code) {
            1
        } else if !self.holds_at(x, y, 3 * dx, 3 * dy, code) {
            2
        } else {
            3
        }
    }

    /// Whether the piece at `piece_pos` is part of four or more in a line:
    /// in each of the four directions the matching cells on both sides are
    /// counted, up to three a side, and four in all win.
    pub fn player_won(&self, piece_pos: [usize; 2]) -> (won: bool)
        requires
            piece_pos[0] < 8,
            piece_pos[1] < 8,
        ensures
            won == wins_at(self.board, piece_pos[0] as int, piece_pos[1] as int),
    {
        let x = piece_pos[0];
        let y = piece_pos[1];
        let code = self.get(x, y);
        let across = 1 + self.count_run(x, y, 1, 0, code) + self.count_run(x, y, -1, 0, code);
        let upright = 1 + self.count_run(x, y, 0, 1, code) + self.count_run(x, y, 0, -1, code);
        let rising = 1 + self.count_run(x, y, 1, 1, code) + self.count_run(x, y, -1, -1, code);
        let falling = 1 + self.count_run(x, y, -1, 1, code) + self.count_run(x, y, 1, -1, code);
        proof {
            let b = self.board;
            let (xi, yi) = (x as int, y as int);
            assert(holds(b, xi, yi, code));
            assert(across >= 4 <==> line_through(b, xi, yi, 0));
            assert(upright >= 4 <==> line_through(b, xi, yi, 1));
            assert(rising >= 4 <==> line_through(b, xi, yi, 2));
            assert(falling >= 4 <==> line_through(b, xi, yi, 3));
        }
        across >= 4 || upright >= 4 || rising >= 4 || falling >= 4
    }

    /// Whether a piece of `player` on `action` would give `player` four in
    /// a line.
    pub fn is_winning_action(&self, action: Action, player: Player) -> (r: bool)
        requires
            action.0 < 8,
            action.1 < 8,
        ensures
            r == completes_line(self.board, action.0 as int, action.1 as int, player),
    {
        let mut resulting_board = *self;
        resulting_board.set(action.0, action.1, player.code());
        resulting_board.player_won([action.0, action.1])
    }

    /// Whether no cell is empty.
    pub fn is_full(&self) -> (r: bool)
        ensures
            r == full(self.board),
    {
        no_cell_empty(self.board)
    }

    /// Where `n` quarter turns around the centre of the board take the
    /// point `(x, y)`.
    pub fn rotate(x: i32, y: i32, n: u32) -> (r: (i32, i32))
        requires
            on_board(x as int, y as int),
        ensures
            r.0 == turned(x as int, y as int, n as int).0,
            r.1 == turned(x as int, y as int, n as int).1,
            on_board(r.0 as int, r.1 as int),
    {
        let n = n % 4;
        if n == 0 {
            (x, y)
        } else if n == 1 {
            (-y + 7, x)
        } else if n == 2 {
            (-x + 7, -y + 7)
        } else {
            (y, -x + 7)
        }
    }

    /// The position turned by `n` quarter turns, with the same mover, state
    /// and count of moves.
    pub fn rotation(&self, n: u32) -> (r: Stack4)
        ensures
            r.board == rotated(self.board, n as int),
            r.cur_player == self.cur_player,
            r.game_state == self.game_state,
            r.nb_moves == self.nb_moves,
            forall|x: int, y: int|
                on_board(x, y) ==> #[trigger] at(
                    r.board,
                    turned(x, y, n as int).0,
                    turned(x, y, n as int).1,
                ) == at(self.board, x, y),
    {
        let mut new_board = Stack4 {
            board: 0,
            cur_player: self.cur_player,
            game_state: self.game_state,
            nb_moves: self.nb_moves,
        };
        let mut k: usize = 0;
        while k < 64
            invariant
                k <= 64,
                new_board.board == turned_upto(self.board, n as int, k as int),
                new_board.cur_player == self.cur_player,
                new_board.game_state == self.game_state,
                new_board.nb_moves == self.nb_moves,
            decreases 64 - k,
        {
            let x = k % 8;
            let y = k / 8;
            let (nx, ny) = Stack4::rotate(x as i32, y as i32, n);
            let code = self.get(x, y);
            new_board.set(nx as usize, ny as usize, code);
            k += 1;
        }
        proof {
            lemma_rotated(self.board, n as int);
        }
        new_board
    }

    /// The position mirrored around the middle of the board, with the same
    /// mover, state and count of moves.
    pub fn mirror(&self) -> (m: Stack4)
        ensures
            m.board == mirrored(self.board),
            m.cur_player == self.cur_player,
            m.game_state == self.game_state,
            m.nb_moves == self.nb_moves,
            forall|x: int, y: int|
                on_board(x, y) ==> #[trigger] at(m.board, x, y) == at(self.board, 7 - x, y),
    {
        let b = self.board;
        let board = ((b & COLUMN_0) << 14) | ((b & (COLUMN_0 << 2)) << 10) | ((b & (COLUMN_0 << 4))
            << 6) | ((b & (COLUMN_0 << 6)) << 2) | ((b & (COLUMN_0 << 8)) >> 2) | ((b & (COLUMN_0
            << 10)) >> 6) | ((b & (COLUMN_0 << 12)) >> 10) | ((b & (COLUMN_0 << 14)) >> 14);
        proof {
            lemma_mirrored(b);
            assert(board == mirrored(b));
            assert forall|x: int, y: int| on_board(x, y) implies #[trigger] at(board, x, y) == at(
                b,
                7 - x,
                y,
            ) by {
                assert(at(mirrored(b), x, y) == at(b, 7 - x, y));
            }
        }
        Stack4 {
            board,
            cur_player: self.cur_player,
            game_state: self.game_state,
            nb_moves: self.nb_moves,
        }
    }

    /// The board as `player` sees it, cell by cell from cell 0: 1 for an own
    /// piece, -1 for a piece of the opponent, 0 for an empty cell.
    pub fn vectorize(&self, player: Player) -> (v: Vec<i8>)
        ensures
            v@.len() == 64,
            forall|k: int| 0 <= k < 64 ==> #[trigger] v@[k] == sign_of(cell(self.board, k), player),
    {
        let mut v: Vec<i8> = Vec::with_capacity(BOARD_SIZE * BOARD_SIZE);
        let own = player.code();
        let theirs = player.opponent().code();
        let mut k: usize = 0;
        while k < BOARD_SIZE * BOARD_SIZE
            invariant
                k <= 64,
                own == player.code_spec(),
                theirs == player.other().code_spec(),
                v@.len() == k,
                forall|j: int| 0 <= j < k ==> #[trigger] v@[j] == sign_of(cell(self.board, j), player),
            decreases 64 - k,
        {
            let cur = get_cell(self.board, k);
            if cur == own {
                v.push(1);
            } else if cur == theirs {
                v.push(-1);
            } else {
                v.push(0);
            }
            k += 1;
        }
        v
    }

    /// How many moves have been played.
    pub fn length(&self) -> (n: u32)
        ensures
            n == self.nb_moves,
    {
        self.nb_moves
    }

    /// The mover put a piece on `action`: the game is won by the mover if
    /// that cell is part of four in a line, drawn if no cell is empty any
    /// more, and the other player is to move.
    pub fn play_move(&mut self, action: Action)
        requires
            old(self).game_state == GameState::InProgress,
            action.0 < 8,
            action.1 < 8,
            old(self).nb_moves < u32::MAX,
        ensures
            *final(self) == old(self).play_spec(action),
            forall|j: int|
                0 <= j < 64 ==> #[trigger] cell(final(self).board, j) == (if j == action.0 + 8
                    * action.1 {
                    old(self).cur_player.code_spec()
                } else {
                    cell(old(self).board, j)
                }),
    {
        let mover = self.cur_player;
        self.set(action.0, action.1, mover.code());
        self.nb_moves += 1;
        if self.player_won([action.0, action.1]) {
            self.game_state = GameState::Won(mover);
        } else if self.is_full() {
            self.game_state = GameState::Draw;
        } else {
            self.game_state = GameState::InProgress;
        }
        self.cur_player = mover.opponent();
    }

    /// Takes back the piece on `last_action`; the game is in progress again
    /// and the other player is to move. The caller names the cell that was
    /// played last.
    pub fn reverse_last_move(&mut self, last_action: Action)
        requires
            last_action.0 < 8,
            last_action.1 < 8,
            old(self).nb_moves > 0,
        ensures
            *final(self) == old(self).reverse_spec(last_action),
            forall|j: int|
                0 <= j < 64 ==> #[trigger] cell(final(self).board, j) == (if j == last_action.0 + 8
                    * last_action.1 {
                    0
                } else {
                    cell(old(self).board, j)
                }),
    {
        self.set(last_action.0, last_action.1, 0);
        self.game_state = GameState::InProgress;
        self.cur_player = self.cur_player.opponent();
        self.nb_moves -= 1;
    }

    /// The first empty cell that probe `p` meets, if it meets one.
    fn probe(&self, p: usize) -> (hit: Option<Action>)
        requires
            p < 32,
        ensures
            match hit {
                Some(a) => a.0 < 8 && a.1 < 8 && found(self.board, p as int) == a.0 + 8 * a.1
                    && self.cell_at(a.0 as int, a.1 as int) == 0,
                None => found(self.board, p as int) == -1,
            },
    {
        let move_order: [usize; 8] = [3, 4, 2, 5, 1, 6, 0, 7];
        let c = move_order[p / 4];
        let e = p % 4;
        assert(c == slot_order(p as int / 4));
        let mut k: usize = 0;
        while k < BOARD_SIZE
            invariant
                k <= 8,
                p < 32,
                c == slot_order(p as int / 4),
                e == p % 4,
                forall|j: int|
                    0 <= j < k ==> at(
                        self.board,
                        #[trigger] probe_cell(p as int, j).0,
                        probe_cell(p as int, j).1,
                    ) != 0,
            decreases 8 - k,
        {
            let cord: (usize, usize) = if e == 0 {
                (c, k)
            } else if e == 1 {
                (7 - k, c)
            } else if e == 2 {
                (7 - c, 7 - k)
            } else {
                (k, 7 - c)
            };
            assert(cord.0 == probe_cell(p as int, k as int).0);
            assert(cord.1 == probe_cell(p as int, k as int).1);
            if self.get(cord.0, cord.1) == 0 {
                proof {
                    lemma_first_empty(self.board, p as int, 0, k as int);
                }
                return Some(cord);
            }
            k += 1;
        }
        proof {
            lemma_first_empty(self.board, p as int, 0, 8);
        }
        None
    }

    /// The group of the move to `cord`: 0 if it wins at once, 1 if it stops
    /// the opponent from winning at once, 2 otherwise.
    fn group_index(&self, cord: Action) -> (group: u8)
        requires
            cord.0 < 8,
            cord.1 < 8,
        ensures
            group == group_of(self.board, self.cur_player, cord.0 + 8 * cord.1),
            group <= 2,
    {
        reveal(group_of);
        let idx = cord.0 + cord.1 * BOARD_SIZE;
        assert(idx % 8 == cord.0 && idx / 8 == cord.1);
        if self.is_winning_action(cord, self.cur_player) {
            0
        } else if self.is_winning_action(cord, self.cur_player.opponent()) {
            1
        } else {
            2
        }
    }

    /// The legal moves, in the order in which the search is to try them.
    pub fn valid_moves(&self) -> (v: Vec<Action>)
        ensures
            v@ == legal_moves(self.board, self.cur_player),
    {
        let mut prev_actions: u64 = 0;
        let mut winning_moves = small_new();
        let mut blocking_moves = small_new();
        let mut actions = small_new();
        let mover = self.cur_player;
        proof {
            lemma_none_marked();
        }
        let mut p: usize = 0;
        while p < 4 * BOARD_SIZE
            invariant
                p <= 32,
                mover == self.cur_player,
                cells_of(winning_moves).len() <= p,
                cells_of(blocking_moves).len() <= p,
                cells_of(actions).len() <= p,
                forall|idx: int|
                    0 <= idx < 64 ==> #[trigger] marked(prev_actions, idx) == found_before(
                        self.board,
                        p as int,
                        idx,
                    ),
                cells_of(winning_moves) == picked(self.board, mover, p as int, 0),
                cells_of(blocking_moves) == picked(self.board, mover, p as int, 1),
                cells_of(actions) == picked(self.board, mover, p as int, 2),
            decreases 32 - p,
        {
            match self.probe(p) {
                Some(cord) => {
                    let idx = cord.0 + cord.1 * BOARD_SIZE;
                    assert(idx % 8 == cord.0 && idx / 8 == cord.1);
                    if !is_marked(prev_actions, idx) {
                        let group = self.group_index(cord);
                        if group == 0 {
                            small_push(&mut winning_moves, cord);
                        } else if group == 1 {
                            small_push(&mut blocking_moves, cord);
                        } else {
                            small_push(&mut actions, cord);
                        }
                    }
                    prev_actions = mark(prev_actions, idx);
                },
                None => {},
            }
            p += 1;
        }
        let mut v = small_into_vec(winning_moves);
        let mut second = small_into_vec(blocking_moves);
        let mut third = small_into_vec(actions);
        v.append(&mut second);
        v.append(&mut third);
        v
    }

    /// Whether four cells in a row, starting at `(x, y)` and going in
    /// direction `d`, are on the board and hold `code`.
    fn four_at(&self, x: usize, y: usize, d: usize, code: u8) -> (r: bool)
        requires
            x < 8,
            y < 8,
            d < 4,
        ensures
            r == four_from(self.board, x as int, y as int, d as int, code),
    {
        let dx: i32 = if d == 0 || d == 2 {
            1
        } else if d == 1 {
            0
        } else {
            -1
        };
        let dy: i32 = if d == 0 {
            0
        } else {
            1
        };
        self.holds_at(x, y, 0, 0, code) && self.holds_at(x, y, dx, dy, code) && self.holds_at(
            x,
            y,
            2 * dx,
            2 * dy,
            code,
        ) && self.holds_at(x, y, 3 * dx, 3 * dy, code)
    }

    /// Whether some four cells in a line hold the same piece.
    pub fn any_line(&self) -> (r: bool)
        ensures
            r == has_line(self.board),
    {
        let mut k: usize = 0;
        while k < 64
            invariant
                k <= 64,
                forall|x: int, y: int, d: int|
                    on_board(x, y) && x + 8 * y < k && 0 <= d < 4 && at(self.board, x, y) != 0
                        ==> !#[trigger] four_from(self.board, x, y, d, at(self.board, x, y)),
            decreases 64 - k,
        {
            let x = k % 8;
            let y = k / 8;
            let code = self.get(x, y);
            if code != 0 {
                let mut d: usize = 0;
                while d < 4
                    invariant
                        d <= 4,
                        x < 8,
                        y < 8,
                        code == at(self.board, x as int, y as int),
                        code != 0,
                        forall|e: int|
                            0 <= e < d ==> !#[trigger] four_from(
                                self.board,
                                x as int,
                                y as int,
                                e,
                                code,
                            ),
                    decreases 4 - d,
                {
                    if self.four_at(x, y, d, code) {
                        return true;
                    }
                    d += 1;
                }
            }
            proof {
                assert forall|cx: int, cy: int, d: int|
                    on_board(cx, cy) && cx + 8 * cy < k + 1 && 0 <= d < 4 && at(
                        self.board,
                        cx,
                        cy,
                    ) != 0 implies !#[trigger] four_from(
                    self.board,
                    cx,
                    cy,
                    d,
                    at(self.board, cx, cy),
                ) by {
                    if cx + 8 * cy == k {
                        assert(cx == x && cy == y);
                    }
                }
            }
            k += 1;
        }
        proof {
            assert forall|x: int, y: int, d: int|
                0 <= d < 4 && at(self.board, x, y) != 0 implies !#[trigger] four_from(
                self.board,
                x,
                y,
                d,
                at(self.board, x, y),
            ) by {
                if on_board(x, y) {
                    assert(x + 8 * y < 64);
                }
            }
        }
        false
    }

    /// Whether no cell of the board holds the code 3.
    fn codes_in_range(&self) -> (r: bool)
        ensures
            r == forall|k: int| 0 <= k < 64 ==> #[trigger] cell(self.board, k) <= 2,
    {
        let mut k: usize = 0;
        while k < 64
            invariant
                k <= 64,
                forall|j: int| 0 <= j < k ==> #[trigger] cell(self.board, j) <= 2,
            decreases 64 - k,
        {
            if get_cell(self.board, k) > 2 {
                return false;
            }
            k += 1;
        }
        true
    }

    /// Whether every cell from `(x, y)` on, in steps of `(dx, dy)` up to the
    /// edge of the board and `(x, y)` itself not counted, holds a piece.
    fn filled_from(&self, x: usize, y: usize, dx: i32, dy: i32) -> (r: bool)
        requires
            x < 8,
            y < 8,
            (dx == 0 && (dy == 1 || dy == -1)) || (dy == 0 && (dx == 1 || dx == -1)),
        ensures
            dx == -1 ==> r == forall|i: int| 0 <= i < x ==> #[trigger] at(self.board, i, y as int) != 0,
            dx == 1 ==> r == forall|i: int| x < i < 8 ==> #[trigger] at(self.board, i, y as int) != 0,
            dy == -1 ==> r == forall|j: int| 0 <= j < y ==> #[trigger] at(self.board, x as int, j) != 0,
            dy == 1 ==> r == forall|j: int| y < j < 8 ==> #[trigger] at(self.board, x as int, j) != 0,
    {
        let mut cx: i32 = x as i32 + dx;
        let mut cy: i32 = y as i32 + dy;
        while Stack4::in_board(cx, cy)
            invariant
                x < 8,
                y < 8,
                (dx == 0 && (dy == 1 || dy == -1)) || (dy == 0 && (dx == 1 || dx == -1)),
                -1 <= cx <= 8,
                -1 <= cy <= 8,
                dx == 0 ==> cx == x,
                dy == 0 ==> cy == y,
                dx == -1 ==> cx < x && forall|i: int|
                    cx < i < x ==> #[trigger] at(self.board, i, y as int) != 0,
                dx == 1 ==> cx > x && forall|i: int|
                    x < i < cx ==> #[trigger] at(self.board, i, y as int) != 0,
                dy == -1 ==> cy < y && forall|j: int|
                    cy < j < y ==> #[trigger] at(self.board, x as int, j) != 0,
                dy == 1 ==> cy > y && forall|j: int|
                    y < j < cy ==> #[trigger] at(self.board, x as int, j) != 0,
            decreases (if dx + dy == 1 {
                16 - cx - cy
            } else {
                cx + cy + 2
            }),
        {
            if self.get(cx as usize, cy as usize) == 0 {
                assert(at(self.board, cx as int, cy as int) == 0);
                return false;
            }
            cx = cx + dx;
            cy = cy + dy;
        }
        true
    }

    /// Whether every piece can be reached from an edge over pieces.
    fn all_propped(&self) -> (r: bool)
        ensures
            r == forall|x: int, y: int|
                on_board(x, y) && #[trigger] at(self.board, x, y) != 0 ==> propped(self.board, x, y),
    {
        let mut k: usize = 0;
        while k < 64
            invariant
                k <= 64,
                forall|x: int, y: int|
                    on_board(x, y) && x + 8 * y < k && #[trigger] at(self.board, x, y) != 0
                        ==> propped(self.board, x, y),
            decreases 64 - k,
        {
            let x = k % 8;
            let y = k / 8;
            if self.get(x, y) != 0 {
                let reached = self.filled_from(x, y, -1, 0) || self.filled_from(x, y, 1, 0)
                    || self.filled_from(x, y, 0, -1) || self.filled_from(x, y, 0, 1);
                assert(reached == propped(self.board, x as int, y as int));
                if !reached {
                    return false;
                }
            }
            proof {
                assert forall|cx: int, cy: int|
                    on_board(cx, cy) && cx + 8 * cy < k + 1 && #[trigger] at(self.board, cx, cy)
                        != 0 implies propped(self.board, cx, cy) by {
                    if cx + 8 * cy == k {
                        assert(cx == x && cy == y);
                    }
                }
            }
            k += 1;
        }
        true
    }

    /// How many cells hold a piece.
    pub fn count_pieces(&self) -> (n: u32)
        ensures
            n == filled(self.board, 64),
            n <= 64,
    {
        let mut n: u32 = 0;
        let mut k: usize = 0;
        while k < 64
            invariant
                k <= 64,
                n == filled(self.board, k as int),
                n <= k,
            decreases 64 - k,
        {
            if get_cell(self.board, k) != 0 {
                n += 1;
            }
            k += 1;
        }
        n
    }

    /// The position in progress that a flat list of cell codes describes,
    /// with the player of code `player_to_move` to move. The list names the
    /// cells column by column: place `i` is the cell `(i / 8, i % 8)`. There
    /// is no such position unless the list has 64 codes from 0 to 2 and the
    /// mover's code is 1 or 2.
    pub fn from_cells(cells: &[u8], player_to_move: u8) -> (r: Option<Stack4>)
        ensures
            r.is_some() <==> cells@.len() == 64 && (player_to_move == 1 || player_to_move == 2)
                && forall|i: int| 0 <= i < 64 ==> #[trigger] cells@[i] <= 2,
            match r {
                Some(b) => {
                    &&& forall|i: int| 0 <= i < 64 ==> at(b.board, i / 8, i % 8) == #[trigger] cells@[i]
                    &&& b.cur_player.code_spec() == player_to_move
                    &&& b.game_state == GameState::InProgress
                    &&& b.nb_moves == filled(b.board, 64)
                },
                None => true,
            },
    {
        let mover = match Player::from_code(player_to_move) {
            Some(p) => p,
            None => {
                return None;
            },
        };
        if cells.len() != 64 {
            return None;
        }
        let mut board = Stack4 {
            board: 0,
            cur_player: mover,
            game_state: GameState::InProgress,
            nb_moves: 0,
        };
        let mut i: usize = 0;
        while i < 64
            invariant
                i <= 64,
                cells@.len() == 64,
                board.cur_player == mover,
                board.game_state == GameState::InProgress,
                forall|j: int| 0 <= j < i ==> #[trigger] cells@[j] <= 2,
                forall|j: int| 0 <= j < i ==> at(board.board, j / 8, j % 8) == #[trigger] cells@[j],
            decreases 64 - i,
        {
            let code = cells[i];
            if code > 2 {
                return None;
            }
            let ghost before = board.board;
            board.set(i / 8, i % 8, code);
            proof {
                assert forall|j: int| 0 <= j < i + 1 implies at(board.board, j / 8, j % 8)
                    == #[trigger] cells@[j] by {
                    if j < i {
                        assert(at(before, j / 8, j % 8) == cells@[j]);
                        assert(j / 8 + 8 * (j % 8) != i / 8 + 8 * (i % 8));
                        assert(cell(board.board, j / 8 + 8 * (j % 8)) == cell(
                            before,
                            j / 8 + 8 * (j % 8),
                        ));
                    }
                }
            }
            i += 1;
        }
        board.nb_moves = board.count_pieces();
        Some(board)
    }

    /// Whether the position is one that play can reach, as far as the
    /// position itself shows it.
    pub fn is_valid(&self) -> (r: bool)
        ensures
            r == self.wf(),
    {
        if !self.codes_in_range() {
            return false;
        }
        if !self.all_propped() {
            return false;
        }
        if self.nb_moves != self.count_pieces() {
            return false;
        }
        let open = !self.any_line() && !self.is_full();
        (self.game_state == GameState::InProgress) == open
    }
}


/// What a probe finds is an empty cell of the board, and the cells that the
/// probe passes before it hold pieces.
pub proof fn lemma_found(board: u128, p: int)
    requires
        0 <= p < 32,
        found(board, p) >= 0,
    ensures
        0 <= found(board, p) < 64,
        cell(board, found(board, p)) == 0,
        propped(
            with_cell(board, found(board, p), 1),
            found(board, p) % 8,
            found(board, p) / 8,
        ),
        propped(
            with_cell(board, found(board, p), 2),
            found(board, p) % 8,
            found(board, p) / 8,
        ),
{
    let k = first_empty(board, p, 0);
    lemma_first_empty_is_first(board, p, 0);
    let idx = found(board, p);
    let (x, y) = probe_cell(p, k);
    assert(idx == x + 8 * y);
    assert(idx % 8 == x && idx / 8 == y);
    assert(at(board, x, y) == 0);
    let c = slot_order(p / 4);
    let e = p % 4;
    assert forall|v: u8| v == 1 || v == 2 implies propped(#[trigger] with_cell(board, idx, v), x, y) by {
        let after = with_cell(board, idx, v);
        lemma_with_cell(board, idx, v);
        if e == 0 {
            assert forall|j: int| 0 <= j < y implies #[trigger] at(after, x, j) != 0 by {
                assert(probe_cell(p, j) == (x, j));
                assert(at(board, probe_cell(p, j).0, probe_cell(p, j).1) != 0);
                assert(cell(after, x + 8 * j) == cell(board, x + 8 * j));
            }
        } else if e == 1 {
            assert forall|i: int| x < i < 8 implies #[trigger] at(after, i, y) != 0 by {
                assert(probe_cell(p, 7 - i) == (i, y));
                assert(at(board, probe_cell(p, 7 - i).0, probe_cell(p, 7 - i).1) != 0);
                assert(cell(after, i + 8 * y) == cell(board, i + 8 * y));
            }
        } else if e == 2 {
            assert forall|j: int| y < j < 8 implies #[trigger] at(after, x, j) != 0 by {
                assert(probe_cell(p, 7 - j) == (x, j));
                assert(at(board, probe_cell(p, 7 - j).0, probe_cell(p, 7 - j).1) != 0);
                assert(cell(after, x + 8 * j) == cell(board, x + 8 * j));
            }
        } else {
            assert forall|i: int| 0 <= i < x implies #[trigger] at(after, i, y) != 0 by {
                assert(probe_cell(p, i) == (i, y));
                assert(at(board, probe_cell(p, i).0, probe_cell(p, i).1) != 0);
                assert(cell(after, i + 8 * y) == cell(board, i + 8 * y));
            }
        }
    }
    assert(propped(with_cell(board, idx, 1), x, y));
    assert(propped(with_cell(board, idx, 2), x, y));
}

/// From step `i` on, a probe passes pieces only until it finds its cell.
proof fn lemma_first_empty_is_first(board: u128, p: int, i: int)
    requires
        0 <= i <= 8,
    ensures
        i <= first_empty(board, p, i) <= 8,
        first_empty(board, p, i) < 8 ==> at(
            board,
            probe_cell(p, first_empty(board, p, i)).0,
            probe_cell(p, first_empty(board, p, i)).1,
        ) == 0,
        forall|j: int|
            i <= j < first_empty(board, p, i) ==> at(
                board,
                #[trigger] probe_cell(p, j).0,
                probe_cell(p, j).1,
            ) != 0,
    decreases 8 - i,
{
    if i < 8 && at(board, probe_cell(p, i).0, probe_cell(p, i).1) != 0 {
        lemma_first_empty_is_first(board, p, i + 1);
    }
}

/// Every picked move is a cell that one of the probes found, and belongs to
/// its group.
pub proof fn lemma_picked(board: u128, mover: Player, n: int, group: int)
    requires
        0 <= n <= 32,
    ensures
        forall|i: int|
            0 <= i < picked(board, mover, n, group).len() ==> {
                let a = #[trigger] picked(board, mover, n, group)[i];
                &&& a.0 < 8
                &&& a.1 < 8
                &&& found_before(board, n, a.0 + 8 * a.1)
                &&& group_of(board, mover, a.0 + 8 * a.1) == group
            },
        forall|i: int, j: int|
            0 <= i < j < picked(board, mover, n, group).len() ==> #[trigger] picked(
                board,
                mover,
                n,
                group,
            )[i] != #[trigger] picked(board, mover, n, group)[j],
        picked(board, mover, n, group).len() <= n,
    decreases n,
{
    if n > 0 {
        lemma_picked(board, mover, n - 1, group);
        let prev = picked(board, mover, n - 1, group);
        let cur = picked(board, mover, n, group);
        let idx = found(board, n - 1);
        if idx >= 0 {
            lemma_found(board, n - 1);
        }
        assert forall|i: int| 0 <= i < cur.len() implies {
            let a = #[trigger] cur[i];
            &&& a.0 < 8
            &&& a.1 < 8
            &&& found_before(board, n, a.0 + 8 * a.1)
            &&& group_of(board, mover, a.0 + 8 * a.1) == group
        } by {
            if i < prev.len() {
                assert(cur[i] == prev[i]);
            }
        }
        assert forall|i: int, j: int| 0 <= i < j < cur.len() implies #[trigger] cur[i]
            != #[trigger] cur[j] by {
            if j < prev.len() {
                assert(cur[i] == prev[i] && cur[j] == prev[j]);
            } else {
                assert(cur[i] == prev[i]);
                assert(found_before(board, n - 1, prev[i].0 + 8 * prev[i].1));
            }
        }
    }
}

/// A cell that one of the first `n` probes found is among the moves picked
/// for its group.
pub proof fn lemma_found_is_picked(board: u128, mover: Player, n: int, idx: int)
    requires
        0 <= n <= 32,
        0 <= idx < 64,
        found_before(board, n, idx),
    ensures
        picked(board, mover, n, group_of(board, mover, idx)).contains(
            ((idx % 8) as usize, (idx / 8) as usize),
        ),
    decreases n,
{
    let group = group_of(board, mover, idx);
    let a = ((idx % 8) as usize, (idx / 8) as usize);
    let prev = picked(board, mover, n - 1, group);
    let cur = picked(board, mover, n, group);
    if found_before(board, n - 1, idx) {
        lemma_found_is_picked(board, mover, n - 1, idx);
        let i = choose|i: int| 0 <= i < prev.len() && prev[i] == a;
        assert(cur[i] == a);
    } else {
        assert(found(board, n - 1) == idx);
        assert(cur == prev.push(a));
        assert(cur[prev.len() as int] == a);
    }
}

/// What is known of every legal move: it names an empty cell of the board
/// that some probe finds, and no move is listed twice.
pub proof fn lemma_legal_moves(board: u128, mover: Player)
    ensures
        forall|a: Action| #[trigger]
            legal_moves(board, mover).contains(a) ==> a.0 < 8 && a.1 < 8 && at(
                board,
                a.0 as int,
                a.1 as int,
            ) == 0 && found_before(board, 32, a.0 + 8 * a.1),
        forall|i: int, j: int|
            0 <= i < j < legal_moves(board, mover).len() ==> #[trigger] legal_moves(board, mover)[i]
                != #[trigger] legal_moves(board, mover)[j],
        legal_moves(board, mover).len() <= 96,
{
    let w = picked(board, mover, 32, 0);
    let b = picked(board, mover, 32, 1);
    let o = picked(board, mover, 32, 2);
    let all = legal_moves(board, mover);
    lemma_picked(board, mover, 32, 0);
    lemma_picked(board, mover, 32, 1);
    lemma_picked(board, mover, 32, 2);
    assert forall|i: int| 0 <= i < all.len() implies {
        let a = #[trigger] all[i];
        &&& a.0 < 8
        &&& a.1 < 8
        &&& found_before(board, 32, a.0 + 8 * a.1)
        &&& at(board, a.0 as int, a.1 as int) == 0
        &&& group_of(board, mover, a.0 + 8 * a.1) == (if i < w.len() {
            0int
        } else if i < w.len() + b.len() {
            1int
        } else {
            2int
        })
    } by {
        let a = all[i];
        if i < w.len() {
            assert(a == w[i]);
        } else if i < w.len() + b.len() {
            assert(a == b[i - w.len()]);
        } else {
            assert(a == o[i - w.len() - b.len()]);
        }
        lemma_found_before(board, 32, a.0 + 8 * a.1);
    }
    assert forall|a: Action| #[trigger] all.contains(a) implies a.0 < 8 && a.1 < 8 && at(
        board,
        a.0 as int,
        a.1 as int,
    ) == 0 && found_before(board, 32, a.0 + 8 * a.1) by {
        let i = choose|i: int| 0 <= i < all.len() && all[i] == a;
        assert(all[i] == a);
    }
    assert forall|i: int, j: int| 0 <= i < j < all.len() implies #[trigger] all[i]
        != #[trigger] all[j] by {
        if j < w.len() {
            assert(all[i] == w[i] && all[j] == w[j]);
        } else if j < w.len() + b.len() {
            if i >= w.len() {
                assert(all[i] == b[i - w.len()] && all[j] == b[j - w.len()]);
            }
        } else {
            if i >= w.len() + b.len() {
                assert(all[i] == o[i - w.len() - b.len()] && all[j] == o[j - w.len() - b.len()]);
            }
        }
    }
}

/// A cell that a probe found is an empty cell.
proof fn lemma_found_before(board: u128, n: int, idx: int)
    requires
        0 <= n <= 32,
        0 <= idx < 64,
        found_before(board, n, idx),
    ensures
        cell(board, idx) == 0,
    decreases n,
{
    if found_before(board, n - 1, idx) {
        lemma_found_before(board, n - 1, idx);
    } else {
        lemma_found(board, n - 1);
    }
}

/// A board with an empty cell has a legal move.
pub proof fn lemma_can_move(board: u128, mover: Player)
    requires
        !full(board),
    ensures
        legal_moves(board, mover).len() > 0,
{
    let k = choose|k: int| 0 <= k < 64 && cell(board, k) == 0;
    let (x, y) = (k % 8, k / 8);
    let i = if x == 3 {
        0int
    } else if x == 4 {
        1int
    } else if x == 2 {
        2int
    } else if x == 5 {
        3int
    } else if x == 1 {
        4int
    } else if x == 6 {
        5int
    } else if x == 0 {
        6int
    } else {
        7int
    };
    let p = 4 * i;
    assert(slot_order(p / 4) == x && p % 4 == 0);
    lemma_first_empty_is_first(board, p, 0);
    assert(probe_cell(p, y) == (x, y));
    assert(at(board, x, y) == 0);
    if first_empty(board, p, 0) > y {
        assert(at(board, probe_cell(p, y).0, probe_cell(p, y).1) != 0);
    }
    let idx = found(board, p);
    lemma_found(board, p);
    lemma_found_at(board, p, 32);
    lemma_found_is_picked(board, mover, 32, idx);
    let group = group_of(board, mover, idx);
    assert(0 <= group <= 2) by {
        reveal(group_of);
    }
    assert(picked(board, mover, 32, group).len() > 0);
}

/// What probe `p` finds was found before every later probe.
proof fn lemma_found_at(board: u128, p: int, n: int)
    requires
        0 <= p < n <= 32,
    ensures
        found_before(board, n, found(board, p)),
    decreases n,
{
    if p < n - 1 {
        lemma_found_at(board, p, n - 1);
    }
}

/// The empty board with Red to move, the game in progress and no move
/// counted is well formed.
pub proof fn lemma_start_wf()
    ensures
        (Stack4 {
            board: 0,
            cur_player: Player::Red,
            game_state: GameState::InProgress,
            nb_moves: 0,
        }).wf(),
{
    let b = Stack4 {
        board: 0,
        cur_player: Player::Red,
        game_state: GameState::InProgress,
        nb_moves: 0,
    };
    assert forall|k: int| 0 <= k < 64 implies #[trigger] cell(b.board, k) == 0 by {
        lemma_cell_zero(k);
    }
    assert(cell(b.board, 0) == 0);
    assert forall|x: int, y: int, d: int|
        0 <= d < 4 && at(b.board, x, y) != 0 implies !#[trigger] four_from(
        b.board,
        x,
        y,
        d,
        at(b.board, x, y),
    ) by {
        if on_board(x, y) {
            assert(cell(b.board, x + 8 * y) == 0);
        }
    }
    assert forall|x: int, y: int|
        on_board(x, y) && #[trigger] at(b.board, x, y) != 0 implies propped(b.board, x, y) by {
        assert(cell(b.board, x + 8 * y) == 0);
    }
    lemma_filled_zero(64);
}

/// A winning cell lies on a line of four.
pub proof fn lemma_win_is_line(board: u128, x: int, y: int)
    requires
        on_board(x, y),
        at(board, x, y) != 0,
        wins_at(board, x, y),
    ensures
        has_line(board),
{
    let c = at(board, x, y);
    let d = if line_through(board, x, y, 0) {
        0int
    } else if line_through(board, x, y, 1) {
        1int
    } else if line_through(board, x, y, 2) {
        2int
    } else {
        3int
    };
    assert(line_through(board, x, y, d));
    let s = if four_from(board, x, y, d, c) {
        0int
    } else if four_from(board, x - dir_x(d), y - dir_y(d), d, c) {
        1int
    } else if four_from(board, x - 2 * dir_x(d), y - 2 * dir_y(d), d, c) {
        2int
    } else {
        3int
    };
    let x0 = x - s * dir_x(d);
    let y0 = y - s * dir_y(d);
    assert(four_from(board, x0, y0, d, c));
    assert(at(board, x0, y0) == c);
    assert(four_from(board, x0, y0, d, at(board, x0, y0)));
}

/// A line of four that exists after one cell was written, and did not exist
/// before, passes through that cell.
pub proof fn lemma_new_line_through(before: u128, after: u128, x: int, y: int)
    requires
        on_board(x, y),
        forall|j: int| 0 <= j < 64 && j != x + 8 * y ==> #[trigger] cell(after, j) == cell(before, j),
        !has_line(before),
        has_line(after),
    ensures
        wins_at(after, x, y),
{
    let (x0, y0, d): (int, int, int) = choose|x0: int, y0: int, d: int|
        0 <= d < 4 && at(after, x0, y0) != 0 && #[trigger] four_from(
            after,
            x0,
            y0,
            d,
            at(after, x0, y0),
        );
    let c = at(after, x0, y0);
    let (dx, dy) = (dir_x(d), dir_y(d));
    if (x0 == x && y0 == y) {
        assert(line_through(after, x, y, d));
    } else if (x0 + dx == x && y0 + dy == y) {
        assert(four_from(after, x - dir_x(d), y - dir_y(d), d, at(after, x, y)));
        assert(line_through(after, x, y, d));
    } else if (x0 + 2 * dx == x && y0 + 2 * dy == y) {
        assert(four_from(after, x - 2 * dir_x(d), y - 2 * dir_y(d), d, at(after, x, y)));
        assert(line_through(after, x, y, d));
    } else if (x0 + 3 * dx == x && y0 + 3 * dy == y) {
        assert(four_from(after, x - 3 * dir_x(d), y - 3 * dir_y(d), d, at(after, x, y)));
        assert(line_through(after, x, y, d));
    } else {
        assert(cell(after, x0 + 8 * y0) == cell(before, x0 + 8 * y0));
        assert(cell(after, (x0 + dx) + 8 * (y0 + dy)) == cell(before, (x0 + dx) + 8 * (y0 + dy)));
        assert(cell(after, (x0 + 2 * dx) + 8 * (y0 + 2 * dy)) == cell(
            before,
            (x0 + 2 * dx) + 8 * (y0 + 2 * dy),
        ));
        assert(cell(after, (x0 + 3 * dx) + 8 * (y0 + 3 * dy)) == cell(
            before,
            (x0 + 3 * dx) + 8 * (y0 + 3 * dy),
        ));
        assert(four_from(before, x0, y0, d, at(before, x0, y0)));
        assert(false);
    }
}

/// A piece that could be reached from an edge can still be reached after
/// another cell was filled.
proof fn lemma_stays_propped(before: u128, after: u128, idx: int, x: int, y: int)
    requires
        0 <= idx < 64,
        on_board(x, y),
        cell(after, idx) != 0,
        forall|j: int| 0 <= j < 64 && j != idx ==> #[trigger] cell(after, j) == cell(before, j),
        propped(before, x, y),
    ensures
        propped(after, x, y),
{
    if forall|i: int| 0 <= i < x ==> #[trigger] at(before, i, y) != 0 {
        assert forall|i: int| 0 <= i < x implies #[trigger] at(after, i, y) != 0 by {
            assert(at(before, i, y) != 0);
            assert(cell(after, i + 8 * y) != 0);
        }
    } else if forall|i: int| x < i < 8 ==> #[trigger] at(before, i, y) != 0 {
        assert forall|i: int| x < i < 8 implies #[trigger] at(after, i, y) != 0 by {
            assert(at(before, i, y) != 0);
            assert(cell(after, i + 8 * y) != 0);
        }
    } else if forall|j: int| 0 <= j < y ==> #[trigger] at(before, x, j) != 0 {
        assert forall|j: int| 0 <= j < y implies #[trigger] at(after, x, j) != 0 by {
            assert(at(before, x, j) != 0);
            assert(cell(after, x + 8 * j) != 0);
        }
    } else {
        assert forall|j: int| y < j < 8 implies #[trigger] at(after, x, j) != 0 by {
            assert(at(before, x, j) != 0);
            assert(cell(after, x + 8 * j) != 0);
        }
    }
}

/// A legal move leads from a well-formed position in progress to a
/// well-formed position.
pub proof fn lemma_play_keeps_wf(b: Stack4, action: Action)
    requires
        b.wf(),
        b.game_state == GameState::InProgress,
        legal_moves(b.board, b.cur_player).contains(action),
    ensures
        action.0 < 8,
        action.1 < 8,
        b.nb_moves < 64,
        b.play_spec(action).wf(),
{
    lemma_legal_moves(b.board, b.cur_player);
    let (x, y) = (action.0 as int, action.1 as int);
    let idx = x + 8 * y;
    let code = b.cur_player.code_spec();
    let after = b.play_spec(action);
    lemma_with_cell(b.board, idx, code);
    lemma_filled_write(b.board, idx, code, 64);
    lemma_filled_bound(after.board, 64);
    assert forall|k: int| 0 <= k < 64 implies #[trigger] cell(after.board, k) <= 2 by {
        assert(cell(b.board, k) <= 2);
    }
    assert(at(after.board, x, y) == code);
    lemma_found_before_witness(b.board, 32, idx);
    assert forall|cx: int, cy: int|
        on_board(cx, cy) && #[trigger] at(after.board, cx, cy) != 0 implies propped(
        after.board,
        cx,
        cy,
    ) by {
        if cx == x && cy == y {
            assert(idx % 8 == x && idx / 8 == y);
        } else {
            assert(cell(after.board, cx + 8 * cy) == cell(b.board, cx + 8 * cy));
            assert(at(b.board, cx, cy) != 0);
            lemma_stays_propped(b.board, after.board, idx, cx, cy);
        }
    }
    if has_line(after.board) {
        lemma_new_line_through(b.board, after.board, x, y);
    }
    if wins_at(after.board, x, y) {
        lemma_win_is_line(after.board, x, y);
    }
}

/// A cell that was found by a probe becomes a piece that can be reached
/// from an edge, whichever player fills it.
proof fn lemma_found_before_witness(board: u128, n: int, idx: int)
    requires
        0 <= n <= 32,
        0 <= idx < 64,
        found_before(board, n, idx),
    ensures
        propped(with_cell(board, idx, 1), idx % 8, idx / 8),
        propped(with_cell(board, idx, 2), idx % 8, idx / 8),
    decreases n,
{
    if found_before(board, n - 1, idx) {
        lemma_found_before_witness(board, n - 1, idx);
    } else {
        lemma_found(board, n - 1);
    }
}

/// Taking back the move that was just played restores the board word, the
/// mover, the state and the count of moves.
pub proof fn lemma_play_then_reverse(b: Stack4, action: Action)
    requires
        b.wf(),
        b.game_state == GameState::InProgress,
        legal_moves(b.board, b.cur_player).contains(action),
    ensures
        b.play_spec(action).reverse_spec(action) == b,
{
    lemma_legal_moves(b.board, b.cur_player);
    lemma_play_keeps_wf(b, action);
    lemma_with_cell_undo(b.board, action.0 + 8 * action.1, b.cur_player.code_spec());
}

/// Whether `b` is `a` after a quarter turn: every cell of `b` holds what
/// the cell of `a` held that the turn takes to it.
pub open spec fn turned_from(a: u128, b: u128) -> bool {
    forall|x: int, y: int| on_board(x, y) ==> #[trigger] at(b, x, y) == at(a, y, 7 - x)
}

/// Whether `b` is the mirror image of `a`.
pub open spec fn mirrored_from(a: u128, b: u128) -> bool {
    forall|x: int, y: int| on_board(x, y) ==> #[trigger] at(b, x, y) == at(a, 7 - x, y)
}

/// What a cell holds is found, after a quarter turn, in the cell to which
/// the turn takes it.
proof fn lemma_cell_after_turn(a: u128, b: u128, p: int, q: int)
    requires
        turned_from(a, b),
        on_board(p, q),
    ensures
        at(b, 7 - q, p) == at(a, p, q),
{
    assert(at(b, 7 - q, p) == at(a, p, 7 - (7 - q)));
}

/// What a cell holds is found, on the mirror image, in the cell across the
/// middle.
proof fn lemma_cell_on_mirror(a: u128, b: u128, p: int, q: int)
    requires
        mirrored_from(a, b),
        on_board(p, q),
    ensures
        at(b, 7 - p, q) == at(a, p, q),
{
    assert(at(b, 7 - p, q) == at(a, 7 - (7 - p), q));
}

/// A line of four on a board is a line of four on the board after a
/// quarter turn.
#[verifier::spinoff_prover]
proof fn lemma_turned_line(a: u128, b: u128)
    requires
        turned_from(a, b),
        has_line(a),
    ensures
        has_line(b),
{
    let (x, y, d): (int, int, int) = choose|x: int, y: int, d: int|
        0 <= d < 4 && at(a, x, y) != 0 && #[trigger] four_from(a, x, y, d, at(a, x, y));
    if d == 0 {
        lemma_cell_after_turn(a, b, x, y);
        lemma_cell_after_turn(a, b, x + 1, y);
        lemma_cell_after_turn(a, b, x + 2, y);
        lemma_cell_after_turn(a, b, x + 3, y);
        assert(four_from(b, 7 - y, x, 1, at(b, 7 - y, x)));
    } else if d == 1 {
        lemma_cell_after_turn(a, b, x, y);
        lemma_cell_after_turn(a, b, x, y + 1);
        lemma_cell_after_turn(a, b, x, y + 2);
        lemma_cell_after_turn(a, b, x, y + 3);
        assert(four_from(b, 7 - (y + 3), x, 0, at(b, 7 - (y + 3), x)));
    } else if d == 2 {
        lemma_cell_after_turn(a, b, x, y);
        lemma_cell_after_turn(a, b, x + 1, y + 1);
        lemma_cell_after_turn(a, b, x + 2, y + 2);
        lemma_cell_after_turn(a, b, x + 3, y + 3);
        assert(four_from(b, 7 - y, x, 3, at(b, 7 - y, x)));
    } else {
        lemma_cell_after_turn(a, b, x, y);
        lemma_cell_after_turn(a, b, x - 1, y + 1);
        lemma_cell_after_turn(a, b, x - 2, y + 2);
        lemma_cell_after_turn(a, b, x - 3, y + 3);
        assert(four_from(b, 7 - (y + 3), x - 3, 2, at(b, 7 - (y + 3), x - 3)));
    }
}

/// A line of four on a board after a quarter turn is a line of four on the
/// board before.
#[verifier::spinoff_prover]
proof fn lemma_turned_line_back(a: u128, b: u128)
    requires
        turned_from(a, b),
        has_line(b),
    ensures
        has_line(a),
{
    let (x, y, d): (int, int, int) = choose|x: int, y: int, d: int|
        0 <= d < 4 && at(b, x, y) != 0 && #[trigger] four_from(b, x, y, d, at(b, x, y));
    if d == 0 {
        assert(at(b, x, y) == at(a, y, 7 - (x)));
        assert(at(b, x + 1, y) == at(a, y, 7 - (x + 1)));
        assert(at(b, x + 2, y) == at(a, y, 7 - (x + 2)));
        assert(at(b, x + 3, y) == at(a, y, 7 - (x + 3)));
        assert(four_from(a, y, 7 - (x + 3), 1, at(a, y, 7 - (x + 3))));
    } else if d == 1 {
        assert(at(b, x, y) == at(a, y, 7 - (x)));
        assert(at(b, x, y + 1) == at(a, y + 1, 7 - (x)));
        assert(at(b, x, y + 2) == at(a, y + 2, 7 - (x)));
        assert(at(b, x, y + 3) == at(a, y + 3, 7 - (x)));
        assert(four_from(a, y, 7 - x, 0, at(a, y, 7 - x)));
    } else if d == 2 {
        assert(at(b, x, y) == at(a, y, 7 - (x)));
        assert(at(b, x + 1, y + 1) == at(a, y + 1, 7 - (x + 1)));
        assert(at(b, x + 2, y + 2) == at(a, y + 2, 7 - (x + 2)));
        assert(at(b, x + 3, y + 3) == at(a, y + 3, 7 - (x + 3)));
        assert(four_from(a, y + 3, 7 - (x + 3), 3, at(a, y + 3, 7 - (x + 3))));
    } else {
        assert(at(b, x, y) == at(a, y, 7 - (x)));
        assert(at(b, x - 1, y + 1) == at(a, y + 1, 7 - (x - 1)));
        assert(at(b, x - 2, y + 2) == at(a, y + 2, 7 - (x - 2)));
        assert(at(b, x - 3, y + 3) == at(a, y + 3, 7 - (x - 3)));
        assert(four_from(a, y, 7 - x, 2, at(a, y, 7 - x)));
    }
}

/// A line of four on a board is a line of four on its mirror image.
#[verifier::spinoff_prover]
proof fn lemma_mirrored_line(a: u128, b: u128)
    requires
        mirrored_from(a, b),
        has_line(a),
    ensures
        has_line(b),
{
    let (x, y, d): (int, int, int) = choose|x: int, y: int, d: int|
        0 <= d < 4 && at(a, x, y) != 0 && #[trigger] four_from(a, x, y, d, at(a, x, y));
    if d == 0 {
        lemma_cell_on_mirror(a, b, x, y);
        lemma_cell_on_mirror(a, b, x + 1, y);
        lemma_cell_on_mirror(a, b, x + 2, y);
        lemma_cell_on_mirror(a, b, x + 3, y);
        assert(four_from(b, 7 - (x + 3), y, 0, at(b, 7 - (x + 3), y)));
    } else if d == 1 {
        lemma_cell_on_mirror(a, b, x, y);
        lemma_cell_on_mirror(a, b, x, y + 1);
        lemma_cell_on_mirror(a, b, x, y + 2);
        lemma_cell_on_mirror(a, b, x, y + 3);
        assert(four_from(b, 7 - x, y, 1, at(b, 7 - x, y)));
    } else if d == 2 {
        lemma_cell_on_mirror(a, b, x, y);
        lemma_cell_on_mirror(a, b, x + 1, y + 1);
        lemma_cell_on_mirror(a, b, x + 2, y + 2);
        lemma_cell_on_mirror(a, b, x + 3, y + 3);
        assert(four_from(b, 7 - x, y, 3, at(b, 7 - x, y)));
    } else {
        lemma_cell_on_mirror(a, b, x, y);
        lemma_cell_on_mirror(a, b, x - 1, y + 1);
        lemma_cell_on_mirror(a, b, x - 2, y + 2);
        lemma_cell_on_mirror(a, b, x - 3, y + 3);
        assert(four_from(b, 7 - x, y, 2, at(b, 7 - x, y)));
    }
}

/// The mirror image of the mirror image is the board itself.
proof fn lemma_mirrored_back(a: u128, b: u128)
    requires
        mirrored_from(a, b),
    ensures
        mirrored_from(b, a),
{
    assert forall|x: int, y: int| on_board(x, y) implies #[trigger] at(a, x, y) == at(
        b,
        7 - x,
        y,
    ) by {
        assert(at(b, 7 - x, y) == at(a, 7 - (7 - x), y));
    }
}

/// What `a` holds in cell `k` is what `b` holds in the cell that `to`
/// names, for every cell.
pub open spec fn cells_moved(a: u128, b: u128, to: spec_fn(int) -> int) -> bool {
    forall|k: int| 0 <= k < 64 ==> cell(b, #[trigger] to(k)) == cell(a, k)
}

/// The number of the cell to which a quarter turn takes cell `k`.
pub open spec fn after_turn(k: int) -> int {
    (7 - k / 8) + 8 * (k % 8)
}

/// The number of the cell from which a quarter turn takes a piece to cell
/// `j`.
pub open spec fn before_turn(j: int) -> int {
    (j / 8) + 8 * (7 - j % 8)
}

/// The number of the cell across the middle from cell `k`.
pub open spec fn across(k: int) -> int {
    (7 - k % 8) + 8 * (k / 8)
}

/// A quarter turn moves the cells around without loss: no cell holds a
/// code that none held, and as many hold a piece as before.
proof fn lemma_turned_cells(a: u128, b: u128)
    requires
        turned_from(a, b),
    ensures
        cells_moved(a, b, |k: int| after_turn(k)),
        cells_moved(b, a, |j: int| before_turn(j)),
        filled(b, 64) == filled(a, 64),
{
    let to = |k: int| after_turn(k);
    let from = |j: int| before_turn(j);
    assert forall|k: int| 0 <= k < 64 implies cell(b, #[trigger] to(k)) == cell(a, k) by {
        lemma_cell_after_turn(a, b, k % 8, k / 8);
    }
    assert forall|j: int| 0 <= j < 64 implies cell(a, #[trigger] from(j)) == cell(b, j) by {
        assert(at(b, j % 8, j / 8) == at(a, j / 8, 7 - j % 8));
    }
    assert(crate::bitboard::moves_cells(to, from));
    lemma_moved_cells_count(a, b, to, from);
}

/// Mirroring moves the cells around without loss.
proof fn lemma_mirrored_cells(a: u128, b: u128)
    requires
        mirrored_from(a, b),
    ensures
        cells_moved(a, b, |k: int| across(k)),
        cells_moved(b, a, |k: int| across(k)),
        filled(b, 64) == filled(a, 64),
{
    let to = |k: int| across(k);
    assert forall|k: int| 0 <= k < 64 implies cell(b, #[trigger] to(k)) == cell(a, k) by {
        lemma_cell_on_mirror(a, b, k % 8, k / 8);
    }
    assert forall|k: int| 0 <= k < 64 implies cell(a, #[trigger] to(k)) == cell(b, k) by {
        assert(at(b, k % 8, k / 8) == at(a, 7 - k % 8, k / 8));
    }
    assert(crate::bitboard::moves_cells(to, to));
    lemma_moved_cells_count(a, b, to, to);
}

/// Where the cells of one board are those of another, moved around, the
/// one holds code 3 nowhere if the other does not, and is full if the other
/// is.
proof fn lemma_moved_codes(a: u128, b: u128, to: spec_fn(int) -> int, from: spec_fn(int) -> int)
    requires
        crate::bitboard::moves_cells(to, from),
        cells_moved(a, b, to),
    ensures
        (forall|k: int| 0 <= k < 64 ==> #[trigger] cell(a, k) <= 2) ==> (forall|k: int|
            0 <= k < 64 ==> #[trigger] cell(b, k) <= 2),
        full(a) ==> full(b),
{
    assert forall|j: int| 0 <= j < 64 implies #[trigger] cell(b, j) == cell(a, from(j)) by {
        assert(to(from(j)) == j);
        assert(cell(b, to(from(j))) == cell(a, from(j)));
    }
    if forall|k: int| 0 <= k < 64 ==> #[trigger] cell(a, k) <= 2 {
        assert forall|j: int| 0 <= j < 64 implies #[trigger] cell(b, j) <= 2 by {
            assert(cell(a, from(j)) <= 2);
        }
    }
    if full(a) {
        assert forall|j: int| 0 <= j < 64 implies #[trigger] cell(b, j) != 0 by {
            assert(cell(a, from(j)) != 0);
        }
    }
}

/// A piece that can be reached from an edge over pieces can still be
/// reached so after a quarter turn.
proof fn lemma_turned_propped(a: u128, b: u128, x: int, y: int)
    requires
        turned_from(a, b),
        on_board(x, y),
        propped(a, y, 7 - x),
    ensures
        propped(b, x, y),
{
    let (sx, sy) = (y, 7 - x);
    if forall|i: int| 0 <= i < sx ==> #[trigger] at(a, i, sy) != 0 {
        assert forall|j: int| 0 <= j < y implies #[trigger] at(b, x, j) != 0 by {
            assert(at(a, j, sy) != 0);
        }
    } else if forall|i: int| sx < i < 8 ==> #[trigger] at(a, i, sy) != 0 {
        assert forall|j: int| y < j < 8 implies #[trigger] at(b, x, j) != 0 by {
            assert(at(a, j, sy) != 0);
        }
    } else if forall|j: int| 0 <= j < sy ==> #[trigger] at(a, sx, j) != 0 {
        assert forall|i: int| x < i < 8 implies #[trigger] at(b, i, y) != 0 by {
            assert(at(a, sx, 7 - i) != 0);
        }
    } else {
        assert forall|i: int| 0 <= i < x implies #[trigger] at(b, i, y) != 0 by {
            assert(at(a, sx, 7 - i) != 0);
        }
    }
}

/// A piece that can be reached from an edge over pieces can still be
/// reached so on the mirror image.
proof fn lemma_mirrored_propped(a: u128, b: u128, x: int, y: int)
    requires
        mirrored_from(a, b),
        on_board(x, y),
        propped(a, 7 - x, y),
    ensures
        propped(b, x, y),
{
    let sx = 7 - x;
    if forall|i: int| 0 <= i < sx ==> #[trigger] at(a, i, y) != 0 {
        assert forall|i: int| x < i < 8 implies #[trigger] at(b, i, y) != 0 by {
            assert(at(a, 7 - i, y) != 0);
        }
    } else if forall|i: int| sx < i < 8 ==> #[trigger] at(a, i, y) != 0 {
        assert forall|i: int| 0 <= i < x implies #[trigger] at(b, i, y) != 0 by {
            assert(at(a, 7 - i, y) != 0);
        }
    } else if forall|j: int| 0 <= j < y ==> #[trigger] at(a, sx, j) != 0 {
        assert forall|j: int| 0 <= j < y implies #[trigger] at(b, x, j) != 0 by {
            assert(at(a, sx, j) != 0);
        }
    } else {
        assert forall|j: int| y < j < 8 implies #[trigger] at(b, x, j) != 0 by {
            assert(at(a, sx, j) != 0);
        }
    }
}

/// After a quarter turn and on the mirror image, a board holds code 3
/// nowhere if it did not before, is full exactly if it was, and holds as
/// many pieces.
proof fn lemma_moved_board(a: u128, b: u128)
    requires
        turned_from(a, b) || mirrored_from(a, b),
    ensures
        (forall|k: int| 0 <= k < 64 ==> #[trigger] cell(a, k) <= 2) ==> (forall|k: int|
            0 <= k < 64 ==> #[trigger] cell(b, k) <= 2),
        full(a) <==> full(b),
        filled(b, 64) == filled(a, 64),
{
    if turned_from(a, b) {
        lemma_turned_cells(a, b);
        lemma_moved_codes(a, b, |k: int| after_turn(k), |j: int| before_turn(j));
        lemma_moved_codes(b, a, |j: int| before_turn(j), |k: int| after_turn(k));
    } else {
        lemma_mirrored_cells(a, b);
        lemma_moved_codes(a, b, |k: int| across(k), |k: int| across(k));
        lemma_moved_codes(b, a, |k: int| across(k), |k: int| across(k));
    }
}

/// After a quarter turn and on the mirror image, every piece can be
/// reached from an edge over pieces if every piece could before.
proof fn lemma_moved_propped(a: u128, b: u128)
    requires
        turned_from(a, b) || mirrored_from(a, b),
        forall|x: int, y: int| on_board(x, y) && #[trigger] at(a, x, y) != 0 ==> propped(a, x, y),
    ensures
        forall|x: int, y: int| on_board(x, y) && #[trigger] at(b, x, y) != 0 ==> propped(b, x, y),
{
    assert forall|x: int, y: int| on_board(x, y) && #[trigger] at(b, x, y) != 0 implies propped(
        b,
        x,
        y,
    ) by {
        if turned_from(a, b) {
            assert(at(a, y, 7 - x) != 0);
            lemma_turned_propped(a, b, x, y);
        } else {
            assert(at(a, 7 - x, y) != 0);
            lemma_mirrored_propped(a, b, x, y);
        }
    }
}

/// After a quarter turn and on the mirror image, a board has a line of
/// four exactly if it had one before.
proof fn lemma_moved_line(a: u128, b: u128)
    requires
        turned_from(a, b) || mirrored_from(a, b),
    ensures
        has_line(a) <==> has_line(b),
{
    if turned_from(a, b) {
        if has_line(a) {
            lemma_turned_line(a, b);
        }
        if has_line(b) {
            lemma_turned_line_back(a, b);
        }
    } else {
        lemma_mirrored_back(a, b);
        if has_line(a) {
            lemma_mirrored_line(a, b);
        }
        if has_line(b) {
            lemma_mirrored_line(b, a);
        }
    }
}

/// A position stays well formed under a quarter turn of its board, and
/// when its board is mirrored.
pub proof fn lemma_moved_keeps_wf(a: Stack4, b: Stack4)
    requires
        a.wf(),
        turned_from(a.board, b.board) || mirrored_from(a.board, b.board),
        b.cur_player == a.cur_player,
        b.game_state == a.game_state,
        b.nb_moves == a.nb_moves,
    ensures
        b.wf(),
{
    lemma_moved_board(a.board, b.board);
    lemma_moved_propped(a.board, b.board);
    lemma_moved_line(a.board, b.board);
}

/// Each turn of a board is the turn before it after one more quarter turn.
proof fn lemma_next_turn(board: u128, n: int)
    requires
        0 <= n < 3,
    ensures
        turned_from(rotated(board, n), rotated(board, n + 1)),
{
    lemma_rotated(board, n);
    lemma_rotated(board, n + 1);
    let a = rotated(board, n);
    let b = rotated(board, n + 1);
    assert forall|x: int, y: int| on_board(x, y) implies #[trigger] at(b, x, y) == at(
        a,
        y,
        7 - x,
    ) by {
        // The cell of the board that lands on `(x, y)` after `n + 1` turns.
        let (sx, sy) = if n == 0 {
            (y, 7 - x)
        } else if n == 1 {
            (7 - x, 7 - y)
        } else {
            (7 - y, x)
        };
        assert(turned(sx, sy, n + 1) == (x, y));
        assert(turned(sx, sy, n) == (y, 7 - x));
        assert(at(b, turned(sx, sy, n + 1).0, turned(sx, sy, n + 1).1) == at(board, sx, sy));
        assert(at(a, turned(sx, sy, n).0, turned(sx, sy, n).1) == at(board, sx, sy));
    }
}

/// Every symmetric variant of a well-formed position is well formed.
pub proof fn lemma_variants_keep_wf(b: Stack4, i: int)
    requires
        b.wf(),
        0 <= i < 8,
    ensures
        b.variants()[i].wf(),
{
    let turn = |n: int|
        Stack4 {
            board: rotated(b.board, n),
            cur_player: b.cur_player,
            game_state: b.game_state,
            nb_moves: b.nb_moves,
        };
    lemma_turned_identity(b.board);
    assert(turn(0) == b);
    lemma_next_turn(b.board, 0);
    lemma_moved_keeps_wf(turn(0), turn(1));
    lemma_next_turn(b.board, 1);
    lemma_moved_keeps_wf(turn(1), turn(2));
    lemma_next_turn(b.board, 2);
    lemma_moved_keeps_wf(turn(2), turn(3));
    let n = i / 2;
    assert(turn(n).wf());
    if i % 2 == 0 {
        assert(b.variants()[i] == turn(n));
    } else {
        lemma_mirrored(rotated(b.board, n));
        lemma_moved_keeps_wf(turn(n), b.variants()[i]);
    }
}

impl Game for Stack4 {
    type Action = (usize, usize);

    open spec fn start() -> Stack4 {
        Stack4 {
            board: 0,
            cur_player: Player::Red,
            game_state: GameState::InProgress,
            nb_moves: 0,
        }
    }

    open spec fn valid(&self) -> bool {
        self.wf()
    }

    open spec fn room(&self) -> nat {
        (64 - filled(self.board, 64)) as nat
    }

    open spec fn state(&self) -> GameState {
        self.game_state
    }

    open spec fn mover(&self) -> Player {
        self.cur_player
    }

    open spec fn key(&self) -> u128 {
        self.board
    }

    open spec fn moves(&self) -> Seq<(usize, usize)> {
        legal_moves(self.board, self.cur_player)
    }

    open spec fn accepts(&self, action: (usize, usize)) -> bool {
        action.0 < 8 && action.1 < 8 && self.nb_moves < u32::MAX
    }

    open spec fn after(&self, action: (usize, usize)) -> Stack4 {
        self.play_spec(action)
    }

    open spec fn takes_back(&self, action: (usize, usize)) -> bool {
        action.0 < 8 && action.1 < 8 && self.nb_moves > 0
    }

    open spec fn before(&self, action: (usize, usize)) -> Stack4 {
        self.reverse_spec(action)
    }

    open spec fn variants(&self) -> Seq<Stack4> {
        Seq::new(
            8,
            |i: int|
                Stack4 {
                    board: if i % 2 == 0 {
                        rotated(self.board, i / 2)
                    } else {
                        mirrored(rotated(self.board, i / 2))
                    },
                    cur_player: self.cur_player,
                    game_state: self.game_state,
                    nb_moves: self.nb_moves,
                },
        )
    }

    open spec fn seen_by(&self, player: Player) -> Seq<i8> {
        Seq::new(64, |k: int| sign_of(cell(self.board, k), player))
    }

    fn new() -> (b: Stack4) {
        Stack4::new()
    }

    fn play_action(&mut self, action: (usize, usize)) {
        self.play_move(action)
    }

    fn reverse_last_action(&mut self, last_action: (usize, usize)) {
        self.reverse_last_move(last_action)
    }

    fn game_state(&self) -> (s: GameState) {
        self.game_state
    }

    fn cur_player(&self) -> (p: Player) {
        self.cur_player
    }

    fn legal_actions(&self) -> (v: Vec<(usize, usize)>) {
        self.valid_moves()
    }

    fn vectorize(&self, player: Player) -> (v: Vec<i8>) {
        let v = self.vectorize(player);
        assert(v@ =~= self.seen_by(player));
        v
    }

    fn symmetries(&self) -> (v: Vec<Stack4>) {
        let mut symmetries: Vec<Stack4> = Vec::with_capacity(8);
        let mut n: u32 = 0;
        while n < 4
            invariant
                n <= 4,
                symmetries@.len() == 2 * n,
                forall|i: int| 0 <= i < 2 * n ==> #[trigger] symmetries@[i] == self.variants()[i],
            decreases 4 - n,
        {
            let rotated = self.rotation(n);
            symmetries.push(rotated);
            symmetries.push(rotated.mirror());
            n += 1;
        }
        assert(symmetries@ =~= self.variants());
        symmetries
    }

    fn uid(&self) -> (id: u128) {
        self.board
    }

    fn shape() -> (s: [usize; 2])
        ensures
            s[0] == 8,
            s[1] == 8,
    {
        let s = [BOARD_SIZE, BOARD_SIZE];
        assert(s[0] * s[1] == 64) by (nonlinear_arith)
            requires
                s[0] == 8,
                s[1] == 8,
        ;
        s
    }

    fn is_valid(&self) -> (r: bool) {
        Stack4::is_valid(self)
    }

    fn same_as(&self, other: &Stack4) -> (r: bool) {
        self.board == other.board && self.cur_player == other.cur_player && self.game_state
            == other.game_state && self.nb_moves == other.nb_moves
    }

    proof fn lemma_play_and_reverse(b: Stack4, action: (usize, usize)) {
        lemma_play_keeps_wf(b, action);
        lemma_play_then_reverse(b, action);
        lemma_legal_moves(b.board, b.cur_player);
        lemma_filled_write(b.board, action.0 + 8 * action.1, b.cur_player.code_spec(), 64);
        lemma_filled_bound(b.board, 64);
        lemma_filled_bound(b.after(action).board, 64);
    }

    proof fn lemma_start() {
        lemma_start_wf();
    }

    proof fn lemma_variants(b: Stack4) {
        lemma_turned_identity(b.board);
        if b.wf() {
            assert forall|i: int| 0 <= i < b.variants().len() implies (#[trigger] b.variants()[i]).wf() by {
                lemma_variants_keep_wf(b, i);
            }
        }
    }

    proof fn lemma_moves_differ(b: Stack4, i: int, j: int) {
        lemma_legal_moves(b.board, b.cur_player);
    }

    proof fn lemma_in_progress_can_move(b: Stack4) {
        lemma_can_move(b.board, b.cur_player);
    }
}

} // verus!
