//! The gravity-drop game: seven columns, six rows, four in a line wins.

use vstd::prelude::*;
use crate::bitboard::{
    cell, with_cell, get_cell, set_cell, filled, lemma_with_cell, lemma_with_cell_undo,
    lemma_cell_zero, lemma_filled_bound, lemma_filled_write,
};
use crate::games::{Game, GameState, Player};

verus! {

/// The number of columns.
pub const BOARD_WIDTH: usize = 7;

/// The number of rows.
pub const BOARD_HEIGHT: usize = 6;

/// The number of moves there are at most: one for each column.
pub const N_ACTIONS: usize = BOARD_WIDTH;

/// A column, in the range `0..BOARD_WIDTH`.
pub type Action = usize;

/// A position of the game. Cell `(x, y)` is cell number `x + 7 * y` of the
/// board word; row 0 is the bottom row.
#[derive(Clone, Copy, PartialEq, Eq, Debug)]
pub struct Connect4 {
    pub board: u128,
    pub cur_player: Player,
    pub game_state: GameState,
}

/// Whether `(x, y)` names a cell of the board.
pub open spec fn on_board(x: int, y: int) -> bool {
    0 <= x < 7 && 0 <= y < 6
}

/// The code of cell `(x, y)` of the board word.
pub open spec fn at(board: u128, x: int, y: int) -> u8 {
    cell(board, x + 7 * y)
}

/// Whether `(x, y)` is on the board and holds `code`.
pub open spec fn holds(board: u128, x: int, y: int, code: u8) -> bool {
    on_board(x, y) && at(board, x, y) == code
}

/// Horizontal step of direction `d`: the directions are, in order,
/// `(1, 0)`, `(0, 1)`, `(1, 1)` and `(-1, 1)`.
pub open spec fn dir_x(d: int) -> int {
    if d == 0 {
        1
    } else if d == 1 {
        0
    } else if d == 2 {
        1
    } else {
        -1
    }
}

/// Vertical step of direction `d`.
pub open spec fn dir_y(d: int) -> int {
    if d == 0 {
        0
    } else {
        1
    }
}

/// Four cells in a row, starting at `(x, y)` and going in direction `d`, all
/// on the board and all holding `code`.
pub open spec fn four_from(board: u128, x: int, y: int, d: int, code: u8) -> bool {
    &&& holds(board, x, y, code)
    &&& holds(board, x + dir_x(d), y + dir_y(d), code)
    &&& holds(board, x + 2 * dir_x(d), y + 2 * dir_y(d), code)
    &&& holds(board, x + 3 * dir_x(d), y + 3 * dir_y(d), code)
}

/// Some line of four cells in direction `d` passes through `(x, y)` and
/// holds, in all four cells, what `(x, y)` holds.
pub open spec fn line_through(board: u128, x: int, y: int, d: int) -> bool {
    let code = at(board, x, y);
    ||| four_from(board, x, y, d, code)
    ||| four_from(board, x - dir_x(d), y - dir_y(d), d, code)
    ||| four_from(board, x - 2 * dir_x(d), y - 2 * dir_y(d), d, code)
    ||| four_from(board, x - 3 * dir_x(d), y - 3 * dir_y(d), d, code)
}

/// At least one of the four directions through `(x, y)` holds four or more
/// consecutive cells with the piece of `(x, y)`.
pub open spec fn wins_at(board: u128, x: int, y: int) -> bool {
    ||| line_through(board, x, y, 0)
    ||| line_through(board, x, y, 1)
    ||| line_through(board, x, y, 2)
    ||| line_through(board, x, y, 3)
}

/// How many of the three cells that follow `(x, y)` in steps of `(dx, dy)`
/// hold `code`, counted up to the first that does not.
pub open spec fn run(board: u128, x: int, y: int, dx: int, dy: int, code: u8) -> int {
    if !holds(board, x + dx, y + dy, code) {
        0
    } else if !holds(board, x + 2 * dx, y + 2 * dy, code) {
        1
    } else if !holds(board, x + 3 * dx, y + 3 * dy, code) {
        2
    } else {
        3
    }
}

/// Some four cells in a line hold the same piece.
pub open spec fn has_line(board: u128) -> bool {
    exists|x: int, y: int, d: int|
        0 <= d < 4 && at(board, x, y) != 0 && #[trigger] four_from(board, x, y, d, at(board, x, y))
}

/// Whether a piece can still be dropped into column `x`.
pub open spec fn open_column(board: u128, x: int) -> bool {
    at(board, x, 5) == 0
}

/// No column takes another piece.
pub open spec fn full(board: u128) -> bool {
    forall|x: int| 0 <= x < 7 ==> !#[trigger] open_column(board, x)
}

/// The row in which a piece dropped into column `x` comes to rest: the
/// lowest empty cell of the column, or 6 if there is none.
pub open spec fn drop_row(board: u128, x: int) -> int {
    if at(board, x, 0) == 0 {
        0
    } else if at(board, x, 1) == 0 {
        1
    } else if at(board, x, 2) == 0 {
        2
    } else if at(board, x, 3) == 0 {
        3
    } else if at(board, x, 4) == 0 {
        4
    } else if at(board, x, 5) == 0 {
        5
    } else {
        6
    }
}

/// The row from which the last piece of column `x` is taken back: the cell
/// below the lowest empty cell above row 0, or the top row if there is none.
pub open spec fn top_row(board: u128, x: int) -> int {
    if at(board, x, 1) == 0 {
        0
    } else if at(board, x, 2) == 0 {
        1
    } else if at(board, x, 3) == 0 {
        2
    } else if at(board, x, 4) == 0 {
        3
    } else if at(board, x, 5) == 0 {
        4
    } else {
        5
    }
}

/// The open columns below `n`, in ascending order.
pub open spec fn open_columns(board: u128, n: int) -> Seq<usize>
    decreases n,
{
    if n <= 0 {
        Seq::empty()
    } else if open_column(board, n - 1) {
        open_columns(board, n - 1).push((n - 1) as usize)
    } else {
        open_columns(board, n - 1)
    }
}

/// The board word mirrored around the middle column.
pub open spec fn mirrored(board: u128) -> u128 {
    ((board & COLUMN_0) << 12) | ((board & (COLUMN_0 << 2)) << 8) | ((board & (COLUMN_0 << 4)) << 4)
        | (board & (COLUMN_0 << 6)) | ((board & (COLUMN_0 << 8)) >> 4) | ((board & (COLUMN_0
        << 10)) >> 8) | ((board & (COLUMN_0 << 12)) >> 12)
}

/// The two bits of column 0 in each of the six rows.
pub const COLUMN_0: u128 = 0xc0_0300_0c00_3000_c003;

/// How a cell looks to `player`: 1 for an own piece, -1 for a piece of the
/// opponent, 0 for an empty cell.
pub open spec fn sign_of(code: u8, player: Player) -> i8 {
    if code == player.code_spec() {
        1i8
    } else if code == player.other().code_spec() {
        (-1i8)
    } else {
        0i8
    }
}

proof fn lemma_bv_mirrored(board: u128, x: u128, y: u128)
    by (bit_vector)
    requires
        x < 7,
        y < 6,
    ensures
        (mirrored(board) >> ((2 * (x + 7 * y)) as u128)) & 3u128 == (board >> ((2 * ((6 - x) + 7
            * y)) as u128)) & 3u128,
{
}

/// Mirroring moves the content of column `x` to column `6 - x`.
pub proof fn lemma_mirrored(board: u128)
    ensures
        forall|x: int, y: int|
            on_board(x, y) ==> #[trigger] at(mirrored(board), x, y) == at(board, 6 - x, y),
{
    assert forall|x: int, y: int| on_board(x, y) implies #[trigger] at(mirrored(board), x, y)
        == at(board, 6 - x, y) by {
        lemma_bv_mirrored(board, x as u128, y as u128);
    }
}

impl Connect4 {
    /// The code of cell `(x, y)`.
    pub open spec fn cell_at(&self, x: int, y: int) -> u8 {
        at(self.board, x, y)
    }

    /// What holds of every position that play can reach: no cell holds the
    /// code 3, the board word holds nothing beyond the 42 cells, no piece
    /// floats above an empty cell, and the game is in progress exactly when
    /// no line of four exists and a column is open.
    pub open spec fn wf(&self) -> bool {
        &&& forall|k: int| 0 <= k < 42 ==> #[trigger] cell(self.board, k) <= 2
        &&& self.board >> 84 == 0
        &&& forall|x: int, y: int|
            0 <= x < 7 && 1 <= y < 6 && #[trigger] at(self.board, x, y) != 0 ==> at(
                self.board,
                x,
                y - 1,
            ) != 0
        &&& self.game_state == GameState::InProgress <==> !has_line(self.board) && !full(
            self.board,
        )
    }

    /// The position after the mover drops a piece into column `action`.
    pub open spec fn play_spec(&self, action: usize) -> Connect4 {
        let y = drop_row(self.board, action as int);
        let board = with_cell(self.board, action + 7 * y, self.cur_player.code_spec());
        Connect4 {
            board,
            cur_player: self.cur_player.other(),
            game_state: if wins_at(board, action as int, y) {
                GameState::Won(self.cur_player)
            } else if full(board) {
                GameState::Draw
            } else {
                GameState::InProgress
            },
        }
    }

    /// The position after the last piece of column `action` is taken back.
    pub open spec fn reverse_spec(&self, action: usize) -> Connect4 {
        let y = top_row(self.board, action as int);
        Connect4 {
            board: with_cell(self.board, action + 7 * y, 0),
            cur_player: self.cur_player.other(),
            game_state: GameState::InProgress,
        }
    }

    /// The empty board, Red to move.
    pub fn new() -> (b: Connect4)
        ensures
            b.board == 0,
            b.cur_player == Player::Red,
            b.game_state == GameState::InProgress,
            b.wf(),
    {
        proof {
            lemma_start_wf();
        }
        Connect4 { board: 0, cur_player: Player::Red, game_state: GameState::InProgress }
    }

    /// Whether `(x, y)` names a cell of the board.
    pub fn in_board(&self, x: i32, y: i32) -> (r: bool)
        ensures
            r == on_board(x as int, y as int),
    {
        x >= 0 && y >= 0 && x < 7 && y < 6
    }

    /// The code of cell `(x, y)`: 0 for empty, 1 for Red, 2 for Yellow.
    pub fn get(&self, x: usize, y: usize) -> (code: u8)
        requires
            x + 7 * y < 64,
        ensures
            code == self.cell_at(x as int, y as int),
            code <= 3,
    {
        get_cell(self.board, x + y * BOARD_WIDTH)
    }

    /// Stores the code `v` in cell `(x, y)` and leaves every other cell, the
    /// mover and the state as they are.
    pub fn set(&mut self, x: usize, y: usize, v: u8)
        requires
            x + 7 * y < 64,
            v <= 3,
        ensures
            final(self).board == with_cell(old(self).board, x + 7 * y, v),
            final(self).cur_player == old(self).cur_player,
            final(self).game_state == old(self).game_state,
            forall|j: int|
                0 <= j < 64 ==> #[trigger] cell(final(self).board, j) == (if j == x + 7 * y {
                    v
                } else {
                    cell(old(self).board, j)
                }),
    {
        self.board = set_cell(self.board, x + y * BOARD_WIDTH, v);
    }

    /// Whether the cell `(sx, sy)` steps away from `(x, y)` is on the board
    /// and holds `code`.
    fn holds_at(&self, x: usize, y: usize, sx: i32, sy: i32, code: u8) -> (r: bool)
        requires
            x < 7,
            y < 6,
            -3 <= sx <= 3,
            -3 <= sy <= 3,
        ensures
            r == holds(self.board, x + sx, y + sy, code),
    {
        let cx: i32 = x as i32 + sx;
        let cy: i32 = y as i32 + sy;
        self.in_board(cx, cy) && self.get(cx as usize, cy as usize) == code
    }

    /// Counts, up to three, the cells that follow `(x, y)` in steps of
    /// `(dx, dy)` and hold `code`, stopping at the first that does not.
    fn count_run(&self, x: usize, y: usize, dx: i32, dy: i32, code: u8) -> (n: u32)
        requires
            x < 7,
            y < 6,
            -1 <= dx <= 1,
            -1 <= dy <= 1,
        ensures
            n == run(self.board, x as int, y as int, dx as int, dy as int, code),
            n <= 3,
    {
        if !self.holds_at(x, y, dx, dy, code) {
            0
        } else if !self.holds_at(x, y, 2 * dx, 2 * dy, code) {
            1
        } else if !self.holds_at(x, y, 3 * dx, 3 * dy, code) {
            2
        } else {
            3
        }
    }

    /// Whether the piece at `piece_pos` is part of four or more in a line:
    /// in each of the four directions the matching cells on both sides are
    /// counted, up to three a side, and four in all win.
    pub fn player_won(&self, piece_pos: [usize; 2]) -> (won: bool)
        requires
            piece_pos[0] < 7,
            piece_pos[1] < 6,
        ensures
            won == wins_at(self.board, piece_pos[0] as int, piece_pos[1] as int),
    {
        let x = piece_pos[0];
        let y = piece_pos[1];
        let code = self.get(x, y);
        let across = 1 + self.count_run(x, y, 1, 0, code) + self.count_run(x, y, -1, 0, code);
        let upright = 1 + self.count_run(x, y, 0, 1, code) + self.count_run(x, y, 0, -1, code);
        let rising = 1 + self.count_run(x, y, 1, 1, code) + self.count_run(x, y, -1, -1, code);
        let falling = 1 + self.count_run(x, y, -1, 1, code) + self.count_run(x, y, 1, -1, code);
        proof {
            let b = self.board;
            let (xi, yi) = (x as int, y as int);
            assert(holds(b, xi, yi, code));
            assert(across >= 4 <==> line_through(b, xi, yi, 0));
            assert(upright >= 4 <==> line_through(b, xi, yi, 1));
            assert(rising >= 4 <==> line_through(b, xi, yi, 2));
            assert(falling >= 4 <==> line_through(b, xi, yi, 3));
        }
        across >= 4 || upright >= 4 || rising >= 4 || falling >= 4
    }

    /// Where a piece dropped into column `action` comes to rest.
    pub fn action_pos(&self, action: Action) -> (pos: [usize; 2])
        requires
            action < 7,
            open_column(self.board, action as int),
        ensures
            pos[0] == action,
            pos[1] == drop_row(self.board, action as int),
            pos[1] < 6,
    {
        let mut cur_y: usize = 0;
        while cur_y < BOARD_HEIGHT
            invariant
                action < 7,
                cur_y <= 6,
                forall|j: int| 0 <= j < cur_y ==> #[trigger] at(self.board, action as int, j) != 0,
            decreases 6 - cur_y,
        {
            if self.get(action, cur_y) == 0 {
                return [action, cur_y];
            }
            cur_y += 1;
        }
        assert(at(self.board, action as int, 5) != 0);
        [action, BOARD_HEIGHT - 1]
    }

    /// Where the piece that was dropped last into column `action` lies.
    pub fn pos_from_action(&self, action: Action) -> (pos: [usize; 2])
        requires
            action < 7,
        ensures
            pos[0] == action,
            pos[1] == top_row(self.board, action as int),
            pos[1] < 6,
    {
        let mut cur_y: usize = 1;
        while cur_y < BOARD_HEIGHT
            invariant
                action < 7,
                1 <= cur_y <= 6,
                forall|j: int| 1 <= j < cur_y ==> #[trigger] at(self.board, action as int, j) != 0,
            decreases 6 - cur_y,
        {
            if self.get(action, cur_y) == 0 {
                return [action, cur_y - 1];
            }
            cur_y += 1;
        }
        [action, BOARD_HEIGHT - 1]
    }

    /// Whether column `action` still takes a piece.
    pub fn is_valid_move(&self, action: Action) -> (r: bool)
        requires
            action < 7,
        ensures
            r == open_column(self.board, action as int),
    {
        self.get(action, BOARD_HEIGHT - 1) == 0
    }

    /// Whether no column takes another piece.
    pub fn is_full(&self) -> (r: bool)
        ensures
            r == full(self.board),
    {
        let mut action: usize = 0;
        while action < N_ACTIONS
            invariant
                action <= 7,
                forall|x: int| 0 <= x < action ==> !#[trigger] open_column(self.board, x),
            decreases 7 - action,
        {
            if self.is_valid_move(action) {
                return false;
            }
            action += 1;
        }
        true
    }

    /// The columns that still take a piece, in ascending order.
    pub fn valid_moves(&self) -> (v: Vec<Action>)
        ensures
            v@ == open_columns(self.board, 7),
            forall|a: usize| #[trigger] v@.contains(a) <==> a < 7 && open_column(self.board, a as int),
            forall|i: int, j: int| 0 <= i < j < v@.len() ==> #[trigger] v@[i] < #[trigger] v@[j],
    {
        let mut v: Vec<Action> = Vec::with_capacity(BOARD_WIDTH);
        let mut i: usize = 0;
        while i < BOARD_WIDTH
            invariant
                i <= 7,
                v@ == open_columns(self.board, i as int),
            decreases 7 - i,
        {
            if self.is_valid_move(i) {
                v.push(i);
            }
            i += 1;
        }
        proof {
            lemma_open_columns(self.board, 7);
        }
        v
    }

    /// The raw board word. Mirrored positions have different words.
    pub fn uid(&self) -> (id: u128)
        ensures
            id == self.board,
    {
        self.board
    }

    /// The mover dropped a piece into column `action`: the piece lies in the
    /// lowest empty cell of the column, the game is won by the mover if that
    /// cell is part of four in a line, drawn if no column is open any more,
    /// and the other player is to move.
    pub fn play_move(&mut self, action: Action)
        requires
            old(self).game_state == GameState::InProgress,
            action < 7,
            open_column(old(self).board, action as int),
        ensures
            *final(self) == old(self).play_spec(action),
            final(self).cur_player == old(self).cur_player.other(),
            forall|j: int|
                0 <= j < 64 ==> #[trigger] cell(final(self).board, j) == (if j == action + 7
                    * drop_row(old(self).board, action as int) {
                    old(self).cur_player.code_spec()
                } else {
                    cell(old(self).board, j)
                }),
    {
        let ap = self.action_pos(action);
        let mover = self.cur_player;
        self.set(ap[0], ap[1], mover.code());
        if self.player_won(ap) {
            self.game_state = GameState::Won(mover);
        } else if self.is_full() {
            self.game_state = GameState::Draw;
        } else {
            self.game_state = GameState::InProgress;
        }
        self.cur_player = mover.opponent();
    }

    /// Takes back the last piece of column `last_action`; the game is in
    /// progress again and the other player is to move. The caller names the
    /// column that was played last.
    pub fn reverse_last_move(&mut self, last_action: Action)
        requires
            last_action < 7,
        ensures
            *final(self) == old(self).reverse_spec(last_action),
            forall|j: int|
                0 <= j < 64 ==> #[trigger] cell(final(self).board, j) == (if j == last_action + 7
                    * top_row(old(self).board, last_action as int) {
                    0
                } else {
                    cell(old(self).board, j)
                }),
    {
        let ap = self.pos_from_action(last_action);
        self.set(ap[0], ap[1], 0);
        self.game_state = GameState::InProgress;
        self.cur_player = self.cur_player.opponent();
    }

    /// The position mirrored around the middle column, with the same mover
    /// and the same state.
    pub fn symmetry(&self) -> (m: Connect4)
        ensures
            m.board == mirrored(self.board),
            m.cur_player == self.cur_player,
            m.game_state == self.game_state,
            forall|x: int, y: int|
                on_board(x, y) ==> #[trigger] at(m.board, x, y) == at(self.board, 6 - x, y),
    {
        proof {
            lemma_mirrored(self.board);
        }
        let b = self.board;
        let board = ((b & COLUMN_0) << 12) | ((b & (COLUMN_0 << 2)) << 8) | ((b & (COLUMN_0 << 4))
            << 4) | (b & (COLUMN_0 << 6)) | ((b & (COLUMN_0 << 8)) >> 4) | ((b & (COLUMN_0 << 10))
            >> 8) | ((b & (COLUMN_0 << 12)) >> 12);
        proof {
            assert(board == mirrored(b));
            assert forall|x: int, y: int| on_board(x, y) implies #[trigger] at(board, x, y) == at(
                b,
                6 - x,
                y,
            ) by {
                assert(at(mirrored(b), x, y) == at(b, 6 - x, y));
            }
        }
        Connect4 { board, cur_player: self.cur_player, game_state: self.game_state }
    }

    /// The board as `player` sees it, cell by cell from cell 0: 1 for an own
    /// piece, -1 for a piece of the opponent, 0 for an empty cell.
    pub fn vectorize(&self, player: Player) -> (v: Vec<i8>)
        ensures
            v@.len() == 42,
            forall|k: int| 0 <= k < 42 ==> #[trigger] v@[k] == sign_of(cell(self.board, k), player),
    {
        let mut v: Vec<i8> = Vec::with_capacity(BOARD_WIDTH * BOARD_HEIGHT);
        let own = player.code();
        let theirs = player.opponent().code();
        let mut k: usize = 0;
        while k < BOARD_WIDTH * BOARD_HEIGHT
            invariant
                k <= 42,
                own == player.code_spec(),
                theirs == player.other().code_spec(),
                v@.len() == k,
                forall|j: int| 0 <= j < k ==> #[trigger] v@[j] == sign_of(cell(self.board, j), player),
            decreases 42 - k,
        {
            let cur = get_cell(self.board, k);
            if cur == own {
                v.push(1);
            } else if cur == theirs {
                v.push(-1);
            } else {
                v.push(0);
            }
            k += 1;
        }
        v
    }

    /// Whether four cells in a row, starting at `(x, y)` and going in
    /// direction `d`, are on the board and hold `code`.
    fn four_at(&self, x: usize, y: usize, d: usize, code: u8) -> (r: bool)
        requires
            x < 7,
            y < 6,
            d < 4,
        ensures
            r == four_from(self.board, x as int, y as int, d as int, code),
    {
        let dx: i32 = if d == 0 || d == 2 {
            1
        } else if d == 1 {
            0
        } else {
            -1
        };
        let dy: i32 = if d == 0 {
            0
        } else {
            1
        };
        self.holds_at(x, y, 0, 0, code) && self.holds_at(x, y, dx, dy, code) && self.holds_at(
            x,
            y,
            2 * dx,
            2 * dy,
            code,
        ) && self.holds_at(x, y, 3 * dx, 3 * dy, code)
    }

    /// Whether some four cells in a line hold the same piece.
    pub fn any_line(&self) -> (r: bool)
        ensures
            r == has_line(self.board),
    {
        let mut k: usize = 0;
        while k < 42
            invariant
                k <= 42,
                forall|x: int, y: int, d: int|
                    on_board(x, y) && x + 7 * y < k && 0 <= d < 4 && at(self.board, x, y) != 0
                        ==> !#[trigger] four_from(self.board, x, y, d, at(self.board, x, y)),
            decreases 42 - k,
        {
            let x = k % 7;
            let y = k / 7;
            let code = self.get(x, y);
            if code != 0 {
                let mut d: usize = 0;
                while d < 4
                    invariant
                        d <= 4,
                        x < 7,
                        y < 6,
                        code == at(self.board, x as int, y as int),
                        code != 0,
                        forall|e: int|
                            0 <= e < d ==> !#[trigger] four_from(
                                self.board,
                                x as int,
                                y as int,
                                e,
                                code,
                            ),
                    decreases 4 - d,
                {
                    if self.four_at(x, y, d, code) {
                        return true;
                    }
                    d += 1;
                }
            }
            proof {
                assert forall|cx: int, cy: int, d: int|
                    on_board(cx, cy) && cx + 7 * cy < k + 1 && 0 <= d < 4 && at(
                        self.board,
                        cx,
                        cy,
                    ) != 0 implies !#[trigger] four_from(
                    self.board,
                    cx,
                    cy,
                    d,
                    at(self.board, cx, cy),
                ) by {
                    if cx + 7 * cy == k {
                        assert(cx == x && cy == y);
                    }
                }
            }
            k += 1;
        }
        proof {
            assert forall|x: int, y: int, d: int|
                0 <= d < 4 && at(self.board, x, y) != 0 implies !#[trigger] four_from(
                self.board,
                x,
                y,
                d,
                at(self.board, x, y),
            ) by {
                if on_board(x, y) {
                    assert(x + 7 * y < 42);
                }
            }
        }
        false
    }

    /// Whether no cell of the board holds the code 3.
    fn codes_in_range(&self) -> (r: bool)
        ensures
            r == forall|k: int| 0 <= k < 42 ==> #[trigger] cell(self.board, k) <= 2,
    {
        let mut k: usize = 0;
        while k < 42
            invariant
                k <= 42,
                forall|j: int| 0 <= j < k ==> #[trigger] cell(self.board, j) <= 2,
            decreases 42 - k,
        {
            if get_cell(self.board, k) > 2 {
                return false;
            }
            k += 1;
        }
        true
    }

    /// Whether no piece lies above an empty cell.
    fn nothing_floats(&self) -> (r: bool)
        ensures
            r == forall|x: int, y: int|
                0 <= x < 7 && 1 <= y < 6 && #[trigger] at(self.board, x, y) != 0 ==> at(
                    self.board,
                    x,
                    y - 1,
                ) != 0,
    {
        let mut k: usize = 7;
        while k < 42
            invariant
                7 <= k <= 42,
                forall|x: int, y: int|
                    0 <= x < 7 && 1 <= y < 6 && x + 7 * y < k && #[trigger] at(self.board, x, y) != 0
                        ==> at(self.board, x, y - 1) != 0,
            decreases 42 - k,
        {
            let x = k % 7;
            let y = k / 7;
            if self.get(x, y) != 0 && self.get(x, y - 1) == 0 {
                return false;
            }
            proof {
                assert forall|cx: int, cy: int|
                    0 <= cx < 7 && 1 <= cy < 6 && cx + 7 * cy < k + 1 && #[trigger] at(
                        self.board,
                        cx,
                        cy,
                    ) != 0 implies at(self.board, cx, cy - 1) != 0 by {
                    if cx + 7 * cy == k {
                        assert(cx == x && cy == y);
                    }
                }
            }
            k += 1;
        }
        true
    }

    /// Whether the position is one that play can reach, as far as the
    /// position itself shows it.
    pub fn is_valid(&self) -> (r: bool)
        ensures
            r == self.wf(),
    {
        if !self.codes_in_range() {
            return false;
        }
        if self.board >> 84 != 0 {
            return false;
        }
        if !self.nothing_floats() {
            return false;
        }
        let open = !self.any_line() && !self.is_full();
        (self.game_state == GameState::InProgress) == open
    }
}


/// The open columns below `n` are exactly the open ones among `0..n`, each
/// once and in ascending order.
pub proof fn lemma_open_columns(board: u128, n: int)
    requires
        0 <= n <= 7,
    ensures
        forall|a: usize| #[trigger]
            open_columns(board, n).contains(a) <==> a < n && open_column(board, a as int),
        forall|i: int, j: int|
            0 <= i < j < open_columns(board, n).len() ==> #[trigger] open_columns(board, n)[i]
                < #[trigger] open_columns(board, n)[j],
        open_columns(board, n).len() <= n,
    decreases n,
{
    let cur = open_columns(board, n);
    if n > 0 {
        lemma_open_columns(board, n - 1);
        let prev = open_columns(board, n - 1);
        let last = (n - 1) as usize;
        if open_column(board, n - 1) {
            assert(cur == prev.push(last));
            assert forall|a: usize| #[trigger] cur.contains(a) <==> a < n && open_column(
                board,
                a as int,
            ) by {
                if cur.contains(a) {
                    let i = choose|i: int| 0 <= i < cur.len() && cur[i] == a;
                    if i < prev.len() {
                        assert(prev[i] == a);
                        assert(prev.contains(a));
                    } else {
                        assert(a == last);
                    }
                }
                if a < n && open_column(board, a as int) {
                    if a == last {
                        assert(cur[prev.len() as int] == a);
                    } else {
                        assert(a < n - 1);
                        assert(prev.contains(a));
                        let i = choose|i: int| 0 <= i < prev.len() && prev[i] == a;
                        assert(cur[i] == a);
                    }
                }
            }
            assert forall|i: int, j: int| 0 <= i < j < cur.len() implies #[trigger] cur[i]
                < #[trigger] cur[j] by {
                if j == prev.len() {
                    assert(prev.contains(prev[i]));
                    assert(cur[i] == prev[i]);
                    assert(cur[j] == last);
                } else {
                    assert(cur[i] == prev[i]);
                    assert(cur[j] == prev[j]);
                }
            }
        } else {
            assert(cur == prev);
            assert forall|a: usize| #[trigger] cur.contains(a) <==> a < n && open_column(
                board,
                a as int,
            ) by {
                if a < n && open_column(board, a as int) {
                    assert(a != last);
                    assert(a < n - 1);
                }
            }
        }
    } else {
        assert(cur =~= Seq::<usize>::empty());
    }
}

/// The empty board with Red to move and the game in progress is well
/// formed.
pub proof fn lemma_start_wf()
    ensures
        (Connect4 { board: 0, cur_player: Player::Red, game_state: GameState::InProgress }).wf(),
{
    let b = Connect4 { board: 0, cur_player: Player::Red, game_state: GameState::InProgress };
    assert forall|k: int| 0 <= k < 64 implies #[trigger] cell(b.board, k) == 0 by {
        lemma_cell_zero(k);
    }
    assert(0u128 >> 84 == 0) by (bit_vector);
    assert(open_column(b.board, 0));
    assert forall|x: int, y: int, d: int|
        0 <= d < 4 && at(b.board, x, y) != 0 implies !#[trigger] four_from(
        b.board,
        x,
        y,
        d,
        at(b.board, x, y),
    ) by {
        if on_board(x, y) {
            assert(cell(b.board, x + 7 * y) == 0);
        }
    }
}

/// A winning cell lies on a line of four.
pub proof fn lemma_win_is_line(board: u128, x: int, y: int)
    requires
        on_board(x, y),
        at(board, x, y) != 0,
        wins_at(board, x, y),
    ensures
        has_line(board),
{
    let c = at(board, x, y);
    let d = if line_through(board, x, y, 0) {
        0int
    } else if line_through(board, x, y, 1) {
        1int
    } else if line_through(board, x, y, 2) {
        2int
    } else {
        3int
    };
    assert(line_through(board, x, y, d));
    let s = if four_from(board, x, y, d, c) {
        0int
    } else if four_from(board, x - dir_x(d), y - dir_y(d), d, c) {
        1int
    } else if four_from(board, x - 2 * dir_x(d), y - 2 * dir_y(d), d, c) {
        2int
    } else {
        3int
    };
    let x0 = x - s * dir_x(d);
    let y0 = y - s * dir_y(d);
    assert(four_from(board, x0, y0, d, c));
    assert(at(board, x0, y0) == c);
    assert(four_from(board, x0, y0, d, at(board, x0, y0)));
}

/// A line of four that exists after one cell was written, and did not exist
/// before, passes through that cell.
pub proof fn lemma_new_line_through(before: u128, after: u128, x: int, y: int)
    requires
        on_board(x, y),
        forall|j: int| 0 <= j < 64 && j != x + 7 * y ==> #[trigger] cell(after, j) == cell(before, j),
        !has_line(before),
        has_line(after),
    ensures
        wins_at(after, x, y),
{
    let (x0, y0, d): (int, int, int) = choose|x0: int, y0: int, d: int|
        0 <= d < 4 && at(after, x0, y0) != 0 && #[trigger] four_from(
            after,
            x0,
            y0,
            d,
            at(after, x0, y0),
        );
    let c = at(after, x0, y0);
    let (dx, dy) = (dir_x(d), dir_y(d));
    if (x0 == x && y0 == y) {
        assert(line_through(after, x, y, d));
    } else if (x0 + dx == x && y0 + dy == y) {
        assert(four_from(after, x - dir_x(d), y - dir_y(d), d, at(after, x, y)));
        assert(line_through(after, x, y, d));
    } else if (x0 + 2 * dx == x && y0 + 2 * dy == y) {
        assert(four_from(after, x - 2 * dir_x(d), y - 2 * dir_y(d), d, at(after, x, y)));
        assert(line_through(after, x, y, d));
    } else if (x0 + 3 * dx == x && y0 + 3 * dy == y) {
        assert(four_from(after, x - 3 * dir_x(d), y - 3 * dir_y(d), d, at(after, x, y)));
        assert(line_through(after, x, y, d));
    } else {
        assert(cell(after, x0 + 7 * y0) == cell(before, x0 + 7 * y0));
        assert(cell(after, (x0 + dx) + 7 * (y0 + dy)) == cell(before, (x0 + dx) + 7 * (y0 + dy)));
        assert(cell(after, (x0 + 2 * dx) + 7 * (y0 + 2 * dy)) == cell(
            before,
            (x0 + 2 * dx) + 7 * (y0 + 2 * dy),
        ));
        assert(cell(after, (x0 + 3 * dx) + 7 * (y0 + 3 * dy)) == cell(
            before,
            (x0 + 3 * dx) + 7 * (y0 + 3 * dy),
        ));
        assert(four_from(before, x0, y0, d, at(before, x0, y0)));
        assert(false);
    }
}

/// A legal move leads from a well-formed position to a well-formed position.
pub proof fn lemma_play_keeps_wf(b: Connect4, action: usize)
    requires
        b.wf(),
        b.game_state == GameState::InProgress,
        action < 7,
        open_column(b.board, action as int),
    ensures
        b.play_spec(action).wf(),
{
    let x = action as int;
    let y = drop_row(b.board, x);
    let code = b.cur_player.code_spec();
    let after = b.play_spec(action);
    lemma_with_cell(b.board, x + 7 * y, code);
    assert forall|k: int| 0 <= k < 42 implies #[trigger] cell(after.board, k) <= 2 by {
        assert(cell(b.board, k) <= 2);
    }
    lemma_bv_write_within(b.board, (2 * (x + 7 * y)) as u128, code as u128);
    assert forall|cx: int, cy: int|
        0 <= cx < 7 && 1 <= cy < 6 && #[trigger] at(after.board, cx, cy) != 0 implies at(
        after.board,
        cx,
        cy - 1,
    ) != 0 by {
        assert(cell(after.board, cx + 7 * cy) != 0);
        if cx == x && cy == y {
            assert(at(b.board, x, y - 1) != 0);
            assert(cell(after.board, x + 7 * (y - 1)) == cell(b.board, x + 7 * (y - 1)));
        } else {
            assert(cell(after.board, cx + 7 * cy) == cell(b.board, cx + 7 * cy));
            assert(at(b.board, cx, cy) != 0);
            assert(at(b.board, cx, cy - 1) != 0);
            if cx == x && cy - 1 == y {
            } else {
                assert(cell(after.board, cx + 7 * (cy - 1)) == cell(b.board, cx + 7 * (cy - 1)));
            }
        }
    }
    assert(at(after.board, x, y) == code);
    if has_line(after.board) {
        lemma_new_line_through(b.board, after.board, x, y);
    }
    if wins_at(after.board, x, y) {
        lemma_win_is_line(after.board, x, y);
    }
}

/// Taking back the move that was just played restores the board word, the
/// mover and the state.
pub proof fn lemma_play_then_reverse(b: Connect4, action: usize)
    requires
        b.wf(),
        b.game_state == GameState::InProgress,
        action < 7,
        open_column(b.board, action as int),
    ensures
        b.play_spec(action).reverse_spec(action) == b,
{
    let x = action as int;
    let y = drop_row(b.board, x);
    let code = b.cur_player.code_spec();
    let after = b.play_spec(action);
    lemma_with_cell(b.board, x + 7 * y, code);
    assert forall|j: int| 0 <= j < 6 implies #[trigger] at(after.board, x, j) == (if j == y {
        code
    } else {
        at(b.board, x, j)
    }) by {
        assert(cell(after.board, x + 7 * j) == (if x + 7 * j == x + 7 * y {
            code
        } else {
            cell(b.board, x + 7 * j)
        }));
    }
    assert forall|j: int| y < j < 6 implies #[trigger] at(b.board, x, j) == 0 by {
        lemma_empty_above(b, x, y, j);
    }
    assert(top_row(after.board, x) == y);
    lemma_with_cell_undo(b.board, x + 7 * y, code);
}

/// In a well-formed position the cells above an empty cell are empty.
proof fn lemma_empty_above(b: Connect4, x: int, y: int, j: int)
    requires
        b.wf(),
        0 <= x < 7,
        0 <= y <= j < 6,
        at(b.board, x, y) == 0,
    ensures
        at(b.board, x, j) == 0,
    decreases j - y,
{
    if j > y {
        lemma_empty_above(b, x, y, j - 1);
        if at(b.board, x, j) != 0 {
            assert(at(b.board, x, j - 1) != 0);
        }
    }
}

/// A well-formed position in progress has a legal move.
pub proof fn lemma_in_progress_has_move(b: Connect4)
    requires
        b.wf(),
        b.game_state == GameState::InProgress,
    ensures
        open_columns(b.board, 7).len() > 0,
        exists|a: usize| a < 7 && open_column(b.board, a as int),
{
    lemma_open_columns(b.board, 7);
    let x = choose|x: int| 0 <= x < 7 && open_column(b.board, x);
    let a = x as usize;
    assert(a < 7 && open_column(b.board, a as int));
    assert(open_columns(b.board, 7).contains(a));
}

proof fn lemma_bv_mirrored_within(board: u128)
    by (bit_vector)
    ensures
        mirrored(board) >> 84 == 0,
{
}

proof fn lemma_bv_write_within(board: u128, s: u128, v: u128)
    by (bit_vector)
    requires
        board >> 84 == 0,
        s < 84,
        s % 2 == 0,
        v <= 3,
    ensures
        ((board & !(3u128 << s)) | (v << s)) >> 84 == 0,
{
}

/// The mirror image of a well-formed position is well formed.
pub proof fn lemma_mirror_keeps_wf(b: Connect4)
    requires
        b.wf(),
    ensures
        (Connect4 {
            board: mirrored(b.board),
            cur_player: b.cur_player,
            game_state: b.game_state,
        }).wf(),
{
    let m = Connect4 {
        board: mirrored(b.board),
        cur_player: b.cur_player,
        game_state: b.game_state,
    };
    lemma_mirrored(b.board);
    assert forall|k: int| 0 <= k < 42 implies #[trigger] cell(m.board, k) <= 2 by {
        let (x, y) = (k % 7, k / 7);
        assert(at(m.board, x, y) == at(b.board, 6 - x, y));
        assert(cell(b.board, (6 - x) + 7 * y) <= 2);
    }
    lemma_bv_mirrored_within(b.board);
    assert forall|x: int, y: int|
        0 <= x < 7 && 1 <= y < 6 && #[trigger] at(m.board, x, y) != 0 implies at(
        m.board,
        x,
        y - 1,
    ) != 0 by {
        assert(at(m.board, x, y) == at(b.board, 6 - x, y));
        assert(at(m.board, x, y - 1) == at(b.board, 6 - x, y - 1));
    }
    if has_line(b.board) {
        lemma_mirrored_lines(b.board, m.board);
    }
    if has_line(m.board) {
        assert forall|x: int, y: int| on_board(x, y) implies #[trigger] at(b.board, x, y) == at(
            m.board,
            6 - x,
            y,
        ) by {
            assert(at(m.board, 6 - x, y) == at(b.board, 6 - (6 - x), y));
        }
        lemma_mirrored_lines(m.board, b.board);
    }
    assert forall|x: int| 0 <= x < 7 implies #[trigger] open_column(m.board, x) == open_column(
        b.board,
        6 - x,
    ) by {
        assert(at(m.board, x, 5) == at(b.board, 6 - x, 5));
    }
    if full(b.board) {
        assert forall|x: int| 0 <= x < 7 implies !#[trigger] open_column(m.board, x) by {
            assert(!open_column(b.board, 6 - x));
        }
    }
    if full(m.board) {
        assert forall|x: int| 0 <= x < 7 implies !#[trigger] open_column(b.board, x) by {
            assert(open_column(m.board, 6 - x) == open_column(b.board, 6 - (6 - x)));
        }
    }
}

/// Where one board holds in every cell what the other holds in the cell
/// across the middle column, a line of four on the one is a line of four on
/// the other.
proof fn lemma_mirrored_lines(b: u128, m: u128)
    requires
        forall|x: int, y: int| on_board(x, y) ==> #[trigger] at(m, x, y) == at(b, 6 - x, y),
        has_line(b),
    ensures
        has_line(m),
{
    let (x, y, d): (int, int, int) = choose|x: int, y: int, d: int|
        0 <= d < 4 && at(b, x, y) != 0 && #[trigger] four_from(b, x, y, d, at(b, x, y));
    let c = at(b, x, y);
    assert(at(m, 6 - x, y) == at(b, 6 - (6 - x), y));
    if d == 0 {
        assert(at(m, 6 - (x + 3), y) == at(b, 6 - (6 - (x + 3)), y));
        assert(at(m, 6 - (x + 2), y) == at(b, 6 - (6 - (x + 2)), y));
        assert(at(m, 6 - (x + 1), y) == at(b, 6 - (6 - (x + 1)), y));
        assert(four_from(m, 6 - (x + 3), y, 0, at(m, 6 - (x + 3), y)));
    } else if d == 1 {
        assert(at(m, 6 - x, y + 1) == at(b, 6 - (6 - x), y + 1));
        assert(at(m, 6 - x, y + 2) == at(b, 6 - (6 - x), y + 2));
        assert(at(m, 6 - x, y + 3) == at(b, 6 - (6 - x), y + 3));
        assert(four_from(m, 6 - x, y, 1, at(m, 6 - x, y)));
    } else if d == 2 {
        assert(at(m, 6 - (x + 1), y + 1) == at(b, 6 - (6 - (x + 1)), y + 1));
        assert(at(m, 6 - (x + 2), y + 2) == at(b, 6 - (6 - (x + 2)), y + 2));
        assert(at(m, 6 - (x + 3), y + 3) == at(b, 6 - (6 - (x + 3)), y + 3));
        assert(four_from(m, 6 - x, y, 3, at(m, 6 - x, y)));
    } else {
        assert(at(m, 6 - (x - 1), y + 1) == at(b, 6 - (6 - (x - 1)), y + 1));
        assert(at(m, 6 - (x - 2), y + 2) == at(b, 6 - (6 - (x - 2)), y + 2));
        assert(at(m, 6 - (x - 3), y + 3) == at(b, 6 - (6 - (x - 3)), y + 3));
        assert(four_from(m, 6 - x, y, 2, at(m, 6 - x, y)));
    }
}

impl Game for Connect4 {
    type Action = usize;

    open spec fn start() -> Connect4 {
        Connect4 { board: 0, cur_player: Player::Red, game_state: GameState::InProgress }
    }

    open spec fn valid(&self) -> bool {
        self.wf()
    }

    open spec fn room(&self) -> nat {
        (42 - filled(self.board, 42)) as nat
    }

    open spec fn state(&self) -> GameState {
        self.game_state
    }

    open spec fn mover(&self) -> Player {
        self.cur_player
    }

    open spec fn key(&self) -> u128 {
        self.board
    }

    open spec fn moves(&self) -> Seq<usize> {
        open_columns(self.board, 7)
    }

    open spec fn accepts(&self, action: usize) -> bool {
        action < 7 && open_column(self.board, action as int)
    }

    open spec fn after(&self, action: usize) -> Connect4 {
        self.play_spec(action)
    }

    open spec fn takes_back(&self, action: usize) -> bool {
        action < 7
    }

    open spec fn before(&self, action: usize) -> Connect4 {
        self.reverse_spec(action)
    }

    open spec fn variants(&self) -> Seq<Connect4> {
        seq![
            *self,
            (Connect4 {
                board: mirrored(self.board),
                cur_player: self.cur_player,
                game_state: self.game_state,
            }),
        ]
    }

    open spec fn seen_by(&self, player: Player) -> Seq<i8> {
        Seq::new(42, |k: int| sign_of(cell(self.board, k), player))
    }

    fn new() -> (b: Connect4) {
        Connect4::new()
    }

    fn play_action(&mut self, action: usize) {
        self.play_move(action)
    }

    fn reverse_last_action(&mut self, last_action: usize) {
        self.reverse_last_move(last_action)
    }

    fn game_state(&self) -> (s: GameState) {
        self.game_state
    }

    fn cur_player(&self) -> (p: Player) {
        self.cur_player
    }

    fn legal_actions(&self) -> (v: Vec<usize>) {
        self.valid_moves()
    }

    fn vectorize(&self, player: Player) -> (v: Vec<i8>) {
        let v = self.vectorize(player);
        assert(v@ =~= self.seen_by(player));
        v
    }

    fn symmetries(&self) -> (v: Vec<Connect4>) {
        let mut v: Vec<Connect4> = Vec::with_capacity(2);
        v.push(*self);
        v.push(self.symmetry());
        assert(v@ =~= self.variants());
        v
    }

    fn uid(&self) -> (id: u128) {
        self.board
    }

    fn shape() -> (s: [usize; 2])
        ensures
            s[0] == 6,
            s[1] == 7,
    {
        let s = [BOARD_HEIGHT, BOARD_WIDTH];
        assert(s[0] * s[1] == 42) by (nonlinear_arith)
            requires
                s[0] == 6,
                s[1] == 7,
        ;
        s
    }

    fn is_valid(&self) -> (r: bool) {
        Connect4::is_valid(self)
    }

    fn same_as(&self, other: &Connect4) -> (r: bool) {
        self.board == other.board && self.cur_player == other.cur_player && self.game_state
            == other.game_state
    }

    proof fn lemma_play_and_reverse(b: Connect4, action: usize) {
        lemma_open_columns(b.board, 7);
        lemma_play_keeps_wf(b, action);
        lemma_play_then_reverse(b, action);
        let idx = action + 7 * drop_row(b.board, action as int);
        lemma_filled_write(b.board, idx, b.cur_player.code_spec(), 42);
        lemma_filled_bound(b.board, 42);
        lemma_filled_bound(b.after(action).board, 42);
    }

    proof fn lemma_start() {
        lemma_start_wf();
    }

    proof fn lemma_variants(b: Connect4) {
        if b.wf() {
            lemma_mirror_keeps_wf(b);
        }
    }

    proof fn lemma_moves_differ(b: Connect4, i: int, j: int) {
        lemma_open_columns(b.board, 7);
    }

    proof fn lemma_in_progress_can_move(b: Connect4) {
        lemma_in_progress_has_move(b);
    }
}

} // verus!
