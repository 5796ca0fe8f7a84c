//! What a player types: a move, or the wish to take moves back.

use vstd::prelude::*;
use crate::games::connect4::{Connect4, open_column, lemma_open_columns};
use crate::games::stack4::{Stack4, legal_moves};
use crate::games::Game;

verus! {

/// What a line of input asks for.
#[derive(PartialEq, Eq, Debug)]
pub enum Request<A> {
    /// Take back the last two plies.
    Undo,
    /// Play this move.
    Move(A),
    /// The line names a place outside the board.
    OutOfRange,
    /// The line names a place on the board where no piece may go.
    Illegal,
    /// The line is neither a move nor the wish to take back.
    Invalid,
}

/// Whether `c` is one of the characters `0` to `9`.
pub open spec fn is_digit(c: u8) -> bool {
    48 <= c <= 57
}

/// The number that a string of digits stands for; 0 for the empty string.
pub open spec fn decimal(s: Seq<u8>) -> int
    decreases s.len(),
{
    if s.len() == 0 {
        0
    } else {
        decimal(s.drop_last()) * 10 + (s.last() - 48)
    }
}

/// Whether `s` is a string of one or more digits.
pub open spec fn all_digits(s: Seq<u8>) -> bool {
    s.len() > 0 && forall|i: int| 0 <= i < s.len() ==> is_digit(#[trigger] s[i])
}

/// The digits of a number as it may be typed: the string itself, or what
/// follows a plus sign at its start.
pub open spec fn unsigned_part(s: Seq<u8>) -> Seq<u8> {
    if s.len() > 0 && s[0] == 43 {
        s.subrange(1, s.len() as int)
    } else {
        s
    }
}

/// The number that `s` stands for, if it is a string of digits, with or
/// without a plus sign before them, whose value fits the machine word.
pub open spec fn number(s: Seq<u8>) -> Option<usize> {
    let digits = unsigned_part(s);
    if all_digits(digits) && decimal(digits) <= usize::MAX {
        Some(decimal(digits) as usize)
    } else {
        None
    }
}

/// A string of digits stands for at least what any of its beginnings
/// stands for.
pub proof fn lemma_decimal_grows(s: Seq<u8>, n: int)
    requires
        0 <= n <= s.len(),
        forall|i: int| 0 <= i < s.len() ==> is_digit(#[trigger] s[i]),
    ensures
        0 <= decimal(s.subrange(0, n)) <= decimal(s),
    decreases s.len() - n,
{
    if n == s.len() {
        assert(s.subrange(0, n) =~= s);
        lemma_decimal_nonnegative(s);
    } else {
        lemma_decimal_grows(s, n + 1);
        let longer = s.subrange(0, n + 1);
        assert(longer.drop_last() =~= s.subrange(0, n));
        lemma_decimal_nonnegative(s.subrange(0, n));
    }
}

/// A string of digits stands for no negative number.
pub proof fn lemma_decimal_nonnegative(s: Seq<u8>)
    requires
        forall|i: int| 0 <= i < s.len() ==> is_digit(#[trigger] s[i]),
    ensures
        0 <= decimal(s),
    decreases s.len(),
{
    if s.len() > 0 {
        lemma_decimal_nonnegative(s.drop_last());
    }
}

/// The number that the bytes of `line` from `from` up to `to` stand for.
pub fn parse_number(line: &[u8], from: usize, to: usize) -> (r: Option<usize>)
    requires
        from <= to <= line@.len(),
    ensures
        r == number(line@.subrange(from as int, to as int)),
{
    let ghost whole = line@.subrange(from as int, to as int);
    let start = if from < to && line[from] == 43 {
        from + 1
    } else {
        from
    };
    let ghost digits = line@.subrange(start as int, to as int);
    proof {
        assert(whole.len() > 0 ==> whole[0] == line@[from as int]);
        assert(digits =~= unsigned_part(whole));
    }
    if start == to {
        return None;
    }
    let mut acc: usize = 0;
    let mut i: usize = start;
    while i < to
        invariant
            from <= start <= i <= to <= line@.len(),
            start < to,
            digits == line@.subrange(start as int, to as int),
            digits == unsigned_part(line@.subrange(from as int, to as int)),
            forall|j: int| 0 <= j < i - start ==> is_digit(#[trigger] digits[j]),
            acc == decimal(digits.subrange(0, i - start)),
        decreases to - i,
    {
        let c = line[i];
        assert(c == digits[i - start]);
        if c < 48 || c > 57 {
            return None;
        }
        let d = (c - 48) as usize;
        let ghost longer = digits.subrange(0, i - start + 1);
        proof {
            assert(longer.drop_last() =~= digits.subrange(0, i - start));
            assert(longer.last() == c);
            assert(decimal(longer) == acc * 10 + d);
        }
        if acc > (usize::MAX - d) / 10 {
            proof {
                assert(decimal(longer) > usize::MAX);
                if all_digits(digits) {
                    lemma_decimal_grows(digits, i - start + 1);
                }
            }
            return None;
        }
        acc = acc * 10 + d;
        i += 1;
    }
    proof {
        assert(digits.subrange(0, to - start) =~= digits);
    }
    Some(acc)
}

/// The place of the first comma of `line` at or after `from`, or the length
/// of the line if there is none.
pub open spec fn first_comma(line: Seq<u8>, from: int) -> int
    decreases line.len() - from,
{
    if from >= line.len() {
        line.len() as int
    } else if line[from] == 44 {
        from
    } else {
        first_comma(line, from + 1)
    }
}

/// Where no comma stands from `from` up to `at`, the first comma from
/// `from` on is the first from `at` on.
proof fn lemma_first_comma(line: Seq<u8>, from: int, at: int)
    requires
        0 <= from <= at <= line.len(),
        forall|i: int| from <= i < at ==> #[trigger] line[i] != 44,
    ensures
        first_comma(line, from) == first_comma(line, at),
    decreases at - from,
{
    if from < at {
        assert(line[from] != 44);
        lemma_first_comma(line, from + 1, at);
    }
}

/// The place of the first comma of `line` at or after `from`, or the length
/// of the line if there is none.
pub fn find_comma(line: &[u8], from: usize) -> (at: usize)
    requires
        from <= line@.len(),
    ensures
        at == first_comma(line@, from as int),
        from <= at <= line@.len(),
{
    let mut i: usize = from;
    while i < line.len()
        invariant
            from <= i <= line@.len(),
            forall|j: int| from <= j < i ==> #[trigger] line@[j] != 44,
        decreases line@.len() - i,
    {
        if line[i] == 44 {
            proof {
                lemma_first_comma(line@, from as int, i as int);
            }
            return i;
        }
        i += 1;
    }
    proof {
        lemma_first_comma(line@, from as int, i as int);
    }
    i
}

/// What a line asks for in the gravity-drop game: a line that starts with
/// `z` takes back; a number names a column, which must be on the board and
/// open.
pub open spec fn column_request_of(line: Seq<u8>, board: Connect4) -> Request<usize> {
    if line.len() > 0 && line[0] == 122 {
        Request::Undo
    } else {
        match number(line) {
            None => Request::Invalid,
            Some(a) => if a >= 7 {
                Request::OutOfRange
            } else if !open_column(board.board, a as int) {
                Request::Illegal
            } else {
                Request::Move(a)
            },
        }
    }
}

/// What a line asks for in the gravity-drop game.
pub fn column_request(line: &[u8], board: &Connect4) -> (r: Request<usize>)
    ensures
        r == column_request_of(line@, *board),
{
    if line.len() > 0 && line[0] == 122 {
        return Request::Undo;
    }
    assert(line@.subrange(0, line@.len() as int) =~= line@);
    match parse_number(line, 0, line.len()) {
        None => Request::Invalid,
        Some(a) => {
            if a >= 7 {
                Request::OutOfRange
            } else if !board.is_valid_move(a) {
                Request::Illegal
            } else {
                Request::Move(a)
            }
        },
    }
}

/// The two numbers that a line of the form `x,y` names. What follows a
/// second comma is not read.
pub open spec fn cell_named(line: Seq<u8>) -> Option<(usize, usize)> {
    let c = first_comma(line, 0);
    if c >= line.len() {
        None
    } else {
        let d = first_comma(line, c + 1);
        match (number(line.subrange(0, c)), number(line.subrange(c + 1, d))) {
            (Some(x), Some(y)) => Some((x, y)),
            _ => None,
        }
    }
}

/// The two numbers that a line of the form `x,y` names.
pub fn parse_cell(line: &[u8]) -> (r: Option<(usize, usize)>)
    ensures
        r == cell_named(line@),
{
    let c = find_comma(line, 0);
    if c >= line.len() {
        return None;
    }
    let d = find_comma(line, c + 1);
    let x = parse_number(line, 0, c);
    let y = parse_number(line, c + 1, d);
    match (x, y) {
        (Some(x), Some(y)) => Some((x, y)),
        _ => None,
    }
}

/// Whether `cell` is among `moves`.
pub fn is_listed(moves: &Vec<(usize, usize)>, cell: (usize, usize)) -> (r: bool)
    ensures
        r == moves@.contains(cell),
{
    let mut i: usize = 0;
    while i < moves.len()
        invariant
            i <= moves@.len(),
            forall|j: int| 0 <= j < i ==> #[trigger] moves@[j] != cell,
        decreases moves@.len() - i,
    {
        if moves[i].0 == cell.0 && moves[i].1 == cell.1 {
            return true;
        }
        i += 1;
    }
    false
}

/// What a line asks for in the four-sides game: a line that starts with `z`
/// takes back; a line `x,y` names a cell, which must be on the board and
/// a legal move.
pub open spec fn cell_request_of(line: Seq<u8>, board: Stack4) -> Request<(usize, usize)> {
    if line.len() > 0 && line[0] == 122 {
        Request::Undo
    } else {
        match cell_named(line) {
            None => Request::Invalid,
            Some(a) => if a.0 >= 8 || a.1 >= 8 {
                Request::OutOfRange
            } else if !legal_moves(board.board, board.cur_player).contains(a) {
                Request::Illegal
            } else {
                Request::Move(a)
            },
        }
    }
}

/// What a line asks for in the four-sides game.
pub fn cell_request(line: &[u8], board: &Stack4) -> (r: Request<(usize, usize)>)
    ensures
        r == cell_request_of(line@, *board),
{
    if line.len() > 0 && line[0] == 122 {
        return Request::Undo;
    }
    match parse_cell(line) {
        None => Request::Invalid,
        Some(a) => {
            if a.0 >= 8 || a.1 >= 8 {
                Request::OutOfRange
            } else {
                let legal = board.valid_moves();
                if !is_listed(&legal, a) {
                    Request::Illegal
                } else {
                    Request::Move(a)
                }
            }
        },
    }
}

/// A game that a person can play at a terminal.
pub trait PlayableGame: Game {
    /// What a line that the player typed asks for. A line that starts with
    /// `z` asks to take back; a move that is asked for is a legal one.
    fn get_action_from_user(&self, line: &[u8]) -> (r: Request<Self::Action>)
        ensures
            line@.len() > 0 && line@[0] == 122 ==> r == Request::<Self::Action>::Undo,
            match r {
                Request::Move(a) => self.moves().contains(a),
                _ => true,
            },
    ;
}

impl PlayableGame for Connect4 {
    fn get_action_from_user(&self, line: &[u8]) -> (r: Request<usize>)
        ensures
            r == column_request_of(line@, *self),
    {
        proof {
            lemma_open_columns(self.board, 7);
        }
        column_request(line, self)
    }
}

impl PlayableGame for Stack4 {
    fn get_action_from_user(&self, line: &[u8]) -> (r: Request<(usize, usize)>)
        ensures
            r == cell_request_of(line@, *self),
    {
        cell_request(line, self)
    }
}

} // verus!
