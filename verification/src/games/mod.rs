//! The two players, the state of a game, and what every game offers.

use vstd::prelude::*;

pub mod connect4;
pub mod stack4;

verus! {

/// One of the two players. Red moves first.
#[derive(Clone, Copy, PartialEq, Eq, Debug, Structural)]
pub enum Player {
    Red,
    Yellow,
}

/// What a cell holds.
#[derive(Clone, Copy, PartialEq, Eq, Debug, Structural)]
pub enum TileStates {
    Empty,
    Full(Player),
}

/// How far a game has come.
#[derive(Clone, Copy, PartialEq, Eq, Debug, Structural)]
pub enum GameState {
    Won(Player),
    Draw,
    InProgress,
}

impl Player {
    /// The opponent of this player.
    pub open spec fn other(self) -> Player {
        match self {
            Player::Red => Player::Yellow,
            Player::Yellow => Player::Red,
        }
    }

    /// The code that stands for this player's pieces on a board.
    pub open spec fn code_spec(self) -> u8 {
        match self {
            Player::Red => 1,
            Player::Yellow => 2,
        }
    }

    /// The opponent of this player.
    pub fn opponent(self) -> (p: Player)
        ensures
            p == self.other(),
    {
        match self {
            Player::Red => Player::Yellow,
            Player::Yellow => Player::Red,
        }
    }

    /// The code that stands for this player's pieces on a board: 1 for Red,
    /// 2 for Yellow.
    pub fn code(self) -> (c: u8)
        ensures
            c == self.code_spec(),
            c == 1 || c == 2,
    {
        match self {
            Player::Red => 1,
            Player::Yellow => 2,
        }
    }

    /// The player whose pieces carry `code`, if there is one.
    pub fn from_code(code: u8) -> (p: Option<Player>)
        ensures
            code == 1 ==> p == Some(Player::Red),
            code == 2 ==> p == Some(Player::Yellow),
            code != 1 && code != 2 ==> p.is_none(),
    {
        if code == 1 {
            Some(Player::Red)
        } else if code == 2 {
            Some(Player::Yellow)
        } else {
            None
        }
    }
}

impl core::ops::Not for Player {
    type Output = Player;

    /// The opponent of this player.
    fn not(self) -> (p: Player) {
        self.opponent()
    }
}

impl vstd::std_specs::ops::NotSpecImpl for Player {
    open spec fn obeys_not_spec() -> bool {
        true
    }

    open spec fn not_req(self) -> bool {
        true
    }

    open spec fn not_spec(self) -> Player {
        self.other()
    }
}

impl TileStates {
    /// The tile that a cell code stands for: 0 is the empty tile, 1 a piece
    /// of Red, and every other code a piece of Yellow.
    pub open spec fn of_code(code: u8) -> TileStates {
        if code == 0 {
            TileStates::Empty
        } else if code == 1 {
            TileStates::Full(Player::Red)
        } else {
            TileStates::Full(Player::Yellow)
        }
    }

    /// The tile that a cell code stands for.
    pub fn from_code(code: u8) -> (t: TileStates)
        ensures
            t == TileStates::of_code(code),
    {
        if code == 0 {
            TileStates::Empty
        } else if code == 1 {
            TileStates::Full(Player::Red)
        } else {
            TileStates::Full(Player::Yellow)
        }
    }
}

/// A game for two players with three outcomes: a win for either player, or
/// a draw. A position is a cheap value that the search copies, plays on and
/// takes moves back from.
pub trait Game: Sized + Copy {
    /// What identifies a move.
    type Action;

    /// The position from which every game starts.
    spec fn start() -> Self;

    /// What holds of every position that play from the start can reach.
    spec fn valid(&self) -> bool;

    /// How many moves the position has room for at most.
    spec fn room(&self) -> nat;

    /// The state of the game in this position.
    spec fn state(&self) -> GameState;

    /// The player to move.
    spec fn mover(&self) -> Player;

    /// The word under which the position is filed.
    spec fn key(&self) -> u128;

    /// The legal moves, in the order in which the search tries them.
    spec fn moves(&self) -> Seq<Self::Action>;

    /// Whether `action` names a place where the board takes a piece.
    /// Every legal move of a valid position does.
    spec fn accepts(&self, action: Self::Action) -> bool;

    /// The position after the mover played `action`.
    spec fn after(&self, action: Self::Action) -> Self;

    /// Whether `action` names a cell from which a piece can be taken back.
    spec fn takes_back(&self, action: Self::Action) -> bool;

    /// The position after the move `action` was taken back.
    spec fn before(&self, action: Self::Action) -> Self;

    /// The positions that are equal to this one under the symmetries of the
    /// board, this one first.
    spec fn variants(&self) -> Seq<Self>;

    /// The board as `player` sees it: 1 for an own piece, -1 for a piece of
    /// the opponent, 0 for an empty cell, row by row.
    spec fn seen_by(&self, player: Player) -> Seq<i8>;

    /// The empty board, Red to move.
    fn new() -> (b: Self)
        ensures
            b == Self::start(),
            b.valid(),
            b.state() == GameState::InProgress,
            b.mover() == Player::Red,
    ;

    /// Plays the move `action` for the mover.
    fn play_action(&mut self, action: Self::Action)
        requires
            old(self).state() == GameState::InProgress,
            old(self).accepts(action),
        ensures
            *final(self) == old(self).after(action),
    ;

    /// Takes back `last_action`, which the caller knows to be the move that
    /// was played last.
    fn reverse_last_action(&mut self, last_action: Self::Action)
        requires
            old(self).takes_back(last_action),
        ensures
            *final(self) == old(self).before(last_action),
    ;

    /// The state of the game in this position.
    fn game_state(&self) -> (s: GameState)
        ensures
            s == self.state(),
    ;

    /// The player to move.
    fn cur_player(&self) -> (p: Player)
        ensures
            p == self.mover(),
    ;

    /// The legal moves, in the order in which the search tries them.
    fn legal_actions(&self) -> (v: Vec<Self::Action>)
        ensures
            v@ == self.moves(),
    ;

    /// The board as `player` sees it: 1 for an own piece, -1 for a piece of
    /// the opponent, 0 for an empty cell, row by row.
    fn vectorize(&self, player: Player) -> (v: Vec<i8>)
        ensures
            v@ == self.seen_by(player),
    ;

    /// All positions that are equal to this one under symmetry, this one
    /// included. Each has the state and the mover of this one.
    fn symmetries(&self) -> (v: Vec<Self>)
        ensures
            v@ == self.variants(),
    ;

    /// The word under which the position is filed: the raw board word.
    /// Positions that are symmetric to each other have different words.
    fn uid(&self) -> (id: u128)
        ensures
            id == self.key(),
    ;

    /// Height and width of the board. Their product is the number of cells,
    /// which is the length of the board as a player sees it.
    fn shape() -> (s: [usize; 2])
        ensures
            s[0] * s[1] == Self::start().seen_by(Player::Red).len(),
    ;

    /// Whether the position is one that play can reach, as far as the
    /// position itself shows it.
    fn is_valid(&self) -> (r: bool)
        ensures
            r == self.valid(),
    ;

    /// Whether two positions are the same in every respect.
    fn same_as(&self, other: &Self) -> (r: bool)
        ensures
            r == (*self == *other),
    ;

    /// A legal move leads from a valid position in progress to a valid
    /// position with the other player to move and less room, and taking
    /// that move back restores the position exactly.
    proof fn lemma_play_and_reverse(b: Self, action: Self::Action)
        requires
            b.valid(),
            b.state() == GameState::InProgress,
            b.moves().contains(action),
        ensures
            b.accepts(action),
            b.after(action).valid(),
            b.after(action).mover() == b.mover().other(),
            b.after(action).room() < b.room(),
            b.after(action).takes_back(action),
            b.after(action).before(action) == b,
    ;

    /// The start is a valid position in progress with Red to move.
    proof fn lemma_start()
        ensures
            Self::start().valid(),
            Self::start().state() == GameState::InProgress,
            Self::start().mover() == Player::Red,
    ;

    /// Every symmetric variant of a position has its state and its mover,
    /// and is valid if the position is; the position itself is the first of
    /// the variants.
    proof fn lemma_variants(b: Self)
        ensures
            b.variants().len() > 0,
            b.variants()[0] == b,
            forall|i: int|
                0 <= i < b.variants().len() ==> (#[trigger] b.variants()[i]).state() == b.state()
                    && b.variants()[i].mover() == b.mover(),
            b.valid() ==> forall|i: int|
                0 <= i < b.variants().len() ==> (#[trigger] b.variants()[i]).valid(),
    ;

    /// No move is listed twice among the legal moves.
    proof fn lemma_moves_differ(b: Self, i: int, j: int)
        requires
            0 <= i < j < b.moves().len(),
        ensures
            b.moves()[i] != b.moves()[j],
    ;

    /// A valid position in progress has a legal move.
    proof fn lemma_in_progress_can_move(b: Self)
        requires
            b.valid(),
            b.state() == GameState::InProgress,
        ensures
            b.moves().len() > 0,
    ;
}

} // verus!
