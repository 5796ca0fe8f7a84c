//! Games between agents, and the record of how they ended.

use vstd::prelude::*;
use crate::agents::Agent;
use crate::games::{Game, GameState, Player};
use crate::random::random_bool;

verus! {

/// Whether `next` comes from `prev` by a legal move in a game that is in
/// progress.
pub open spec fn follows<G: Game>(prev: G, next: G) -> bool {
    &&& prev.state() == GameState::InProgress
    &&& exists|k: int| 0 <= k < prev.moves().len() && next == prev.after(#[trigger] prev.moves()[k])
}

/// The position from which the move to place `i` of `boards` was played.
pub open spec fn position_before<G: Game>(boards: Seq<G>, i: int) -> G {
    if i == 0 {
        G::start()
    } else {
        boards[i - 1]
    }
}

/// Whether `boards` is played by the rules from the start: every position
/// comes from the one before it, the first from the start, by a legal move.
pub open spec fn played_by_rules<G: Game>(boards: Seq<G>) -> bool {
    forall|i: int|
        0 <= i < boards.len() ==> follows(position_before(boards, i), #[trigger] boards[i])
}

/// Whether `boards` is a game played by the rules from the start to its
/// end: only the last position is a finished game.
pub open spec fn played_out<G: Game>(boards: Seq<G>) -> bool {
    &&& boards.len() > 0
    &&& boards.last().state() != GameState::InProgress
    &&& played_by_rules(boards)
}

/// Every position of a game played by the rules is valid, and the players
/// take turns: Yellow is to move after the first move, Red after the
/// second, and so on.
pub proof fn lemma_played_positions<G: Game>(boards: Seq<G>, i: int)
    requires
        played_by_rules(boards),
        0 <= i < boards.len(),
    ensures
        boards[i].valid(),
        boards[i].mover() == (if i % 2 == 0 {
            Player::Yellow
        } else {
            Player::Red
        }),
    decreases i,
{
    let prev = position_before(boards, i);
    assert(follows(prev, boards[i]));
    if i == 0 {
        G::lemma_start();
    } else {
        lemma_played_positions(boards, i - 1);
    }
    let k = choose|k: int|
        0 <= k < prev.moves().len() && boards[i] == prev.after(#[trigger] prev.moves()[k]);
    G::lemma_play_and_reverse(prev, prev.moves()[k]);
}

/// A game played by the rules stays so when a legal move is added.
pub proof fn lemma_played_on<G: Game>(boards: Seq<G>, next: G)
    requires
        played_by_rules(boards),
        follows(position_before(boards.push(next), boards.len() as int), next),
    ensures
        played_by_rules(boards.push(next)),
{
    let longer = boards.push(next);
    assert forall|i: int| 0 <= i < longer.len() implies follows(
        position_before(longer, i),
        #[trigger] longer[i],
    ) by {
        if i < boards.len() {
            assert(longer[i] == boards[i]);
            assert(position_before(longer, i) == position_before(boards, i));
        }
    }
}

/// Lets two agents play a game: `red` moves for Red, who starts, `yellow`
/// for Yellow. Returns the position after every move, the final one
/// included.
pub fn play_game<G: Game, A1: Agent<G> + ?Sized, A2: Agent<G> + ?Sized>(red: &A1, yellow: &A2) -> (boards:
    Vec<G>)
    requires
        red.ready(),
        yellow.ready(),
    ensures
        played_out(boards@),
{
    let mut boards: Vec<G> = Vec::new();
    let mut board = G::new();
    let mut b = true;
    let red_is_starting = board.cur_player() == Player::Red;
    while board.game_state() == GameState::InProgress
        invariant
            red.ready(),
            yellow.ready(),
            board.valid(),
            board == position_before(boards@, boards@.len() as int),
            played_by_rules(boards@),
        decreases board.room(),
    {
        let ghost prev = board;
        let ghost before = boards@;
        let action = if b == red_is_starting {
            red.get_action(&board, board.cur_player())
        } else {
            yellow.get_action(&board, board.cur_player())
        };
        proof {
            G::lemma_play_and_reverse(prev, action);
        }
        board.play_action(action);
        b = !b;
        boards.push(board);
        proof {
            let k = choose|k: int| 0 <= k < prev.moves().len() && prev.moves()[k] == action;
            assert(board == prev.after(prev.moves()[k]));
            assert(position_before(before.push(board), before.len() as int) == prev);
            lemma_played_on(before, board);
        }
    }
    boards
}

/// What the game `entry`, given as the agent that played Red, the agent
/// that played Yellow and the result, adds to one count of agent `a`. The
/// counts are: 0 for draws, 1 for wins, 2 for losses.
pub open spec fn game_counts(entry: (usize, usize, GameState), a: int, kind: int) -> int {
    let as_red: int = if entry.0 == a {
        1
    } else {
        0
    };
    let as_yellow: int = if entry.1 == a {
        1
    } else {
        0
    };
    match entry.2 {
        GameState::Won(Player::Red) => if kind == 1 {
            as_red
        } else if kind == 2 {
            as_yellow
        } else {
            0
        },
        GameState::Won(Player::Yellow) => if kind == 1 {
            as_yellow
        } else if kind == 2 {
            as_red
        } else {
            0
        },
        GameState::Draw => if kind == 0 {
            as_red + as_yellow
        } else {
            0
        },
        GameState::InProgress => 0,
    }
}

/// One count of agent `a` over the first `n` recorded games.
pub open spec fn tally(hist: Seq<(usize, usize, GameState)>, n: int, a: int, kind: int) -> int
    decreases n,
{
    if n <= 0 {
        0
    } else {
        tally(hist, n - 1, a, kind) + game_counts(hist[n - 1], a, kind)
    }
}

/// A count over `n` games is at most twice `n`.
pub proof fn lemma_tally_bound(hist: Seq<(usize, usize, GameState)>, n: int, a: int, kind: int)
    requires
        0 <= n,
    ensures
        0 <= tally(hist, n, a, kind) <= 2 * n,
    decreases n,
{
    if n > 0 {
        lemma_tally_bound(hist, n - 1, a, kind);
    }
}

/// What the game `entry` was worth to agent `a`, who played in it: 1 for a
/// win, -1 for a loss, 0 for a draw.
pub open spec fn worth_to(entry: (usize, usize, GameState), a: usize) -> i8 {
    match entry.2 {
        GameState::Won(Player::Red) => if entry.0 == a {
            1i8
        } else {
            (-1i8)
        },
        GameState::Won(Player::Yellow) => if entry.1 == a {
            1i8
        } else {
            (-1i8)
        },
        _ => 0i8,
    }
}

/// What each of the first `n` recorded games in which agent `a` played was
/// worth to it, in the order of the games.
pub open spec fn worths_to(hist: Seq<(usize, usize, GameState)>, n: int, a: usize) -> Seq<i8>
    decreases n,
{
    if n <= 0 {
        Seq::empty()
    } else if hist[n - 1].0 == a || hist[n - 1].1 == a {
        worths_to(hist, n - 1, a).push(worth_to(hist[n - 1], a))
    } else {
        worths_to(hist, n - 1, a)
    }
}

/// Whether `scores` holds, for every agent, the counts over the first `n`
/// recorded games.
pub open spec fn counts_upto(
    scores: Seq<[i32; 3]>,
    hist: Seq<(usize, usize, GameState)>,
    n: int,
) -> bool {
    forall|a: int, kind: int|
        0 <= a < scores.len() && 0 <= kind < 3 ==> #[trigger] scores[a][kind] == tally(
            hist,
            n,
            a,
            kind,
        )
}

/// Lets agents of one kind play against each other and keeps the results.
pub struct MatchMaker<'a, G: Game, A: Agent<G>> {
    /// The agents. Games are played between the first two.
    pub agents: Vec<&'a A>,
    /// For every game the index of the agent that played Red, that of the
    /// agent that played Yellow, and the result.
    pub hist: Vec<(usize, usize, GameState)>,
    /// The game that the agents play.
    pub game: core::marker::PhantomData<G>,
}

impl<'a, G: Game, A: Agent<G>> MatchMaker<'a, G, A> {
    /// Every recorded game is finished and was played by agents that the
    /// match maker holds.
    pub open spec fn wf(&self) -> bool {
        forall|i: int|
            0 <= i < self.hist@.len() ==> {
                let entry = #[trigger] self.hist@[i];
                &&& entry.0 < self.agents@.len()
                &&& entry.1 < self.agents@.len()
                &&& entry.2 != GameState::InProgress
            }
    }

    /// A match maker without agents and without games.
    pub fn new() -> (mm: Self)
        ensures
            mm.agents@.len() == 0,
            mm.hist@.len() == 0,
            mm.wf(),
    {
        MatchMaker { agents: Vec::new(), hist: Vec::new(), game: core::marker::PhantomData }
    }

    /// Takes `agent` in as the last of the agents.
    pub fn add_agent(&mut self, agent: &'a A)
        ensures
            final(self).agents@ == old(self).agents@.push(agent),
            final(self).hist@ == old(self).hist@,
            old(self).wf() ==> final(self).wf(),
    {
        self.agents.push(agent);
    }

    /// Puts `new_agent` in the place of the agent number `index`.
    pub fn update_agent(&mut self, index: usize, new_agent: &'a A)
        requires
            index < old(self).agents@.len(),
        ensures
            final(self).agents@ == old(self).agents@.update(index as int, new_agent),
            final(self).hist@ == old(self).hist@,
            old(self).wf() ==> final(self).wf(),
    {
        self.agents[index] = new_agent;
    }

    /// Plays `n` games between the two agents and records the results. Who
    /// plays Red is drawn anew for every game.
    pub fn play_n_games(&mut self, n: u32)
        requires
            old(self).agents@.len() == 2,
            old(self).agents@[0].ready(),
            old(self).agents@[1].ready(),
        ensures
            final(self).agents@ == old(self).agents@,
            final(self).hist@.len() == old(self).hist@.len() + n,
            forall|i: int|
                0 <= i < old(self).hist@.len() ==> #[trigger] final(self).hist@[i] == old(
                    self,
                ).hist@[i],
            forall|i: int|
                old(self).hist@.len() <= i < final(self).hist@.len() ==> {
                    let entry = #[trigger] final(self).hist@[i];
                    &&& entry.0 + entry.1 == 1
                    &&& entry.2 != GameState::InProgress
                },
            old(self).wf() ==> final(self).wf(),
    {
        let mut k: u32 = 0;
        while k < n
            invariant
                k <= n,
                self.agents@ == old(self).agents@,
                self.agents@.len() == 2,
                self.agents@[0].ready(),
                self.agents@[1].ready(),
                self.hist@.len() == old(self).hist@.len() + k,
                forall|i: int|
                    0 <= i < old(self).hist@.len() ==> #[trigger] self.hist@[i] == old(
                        self,
                    ).hist@[i],
                forall|i: int|
                    old(self).hist@.len() <= i < self.hist@.len() ==> {
                        let entry = #[trigger] self.hist@[i];
                        &&& entry.0 + entry.1 == 1
                        &&& entry.2 != GameState::InProgress
                    },
            decreases n - k,
        {
            let (red, yellow): (usize, usize) = if random_bool() {
                (0, 1)
            } else {
                (1, 0)
            };
            let end_board = play_game(self.agents[red], self.agents[yellow]);
            let result = end_board[end_board.len() - 1].game_state();
            self.hist.push((red, yellow, result));
            k += 1;
        }
    }

    /// For every agent the counts of its draws, wins and losses, in this
    /// order, over all recorded games.
    pub fn scores(&self) -> (scores: Vec<[i32; 3]>)
        requires
            self.wf(),
            2 * self.hist@.len() <= i32::MAX,
        ensures
            scores@.len() == self.agents@.len(),
            counts_upto(scores@, self.hist@, self.hist@.len() as int),
    {
        let mut scores = no_scores(self.agents.len());
        let mut i: usize = 0;
        while i < self.hist.len()
            invariant
                i <= self.hist@.len(),
                self.wf(),
                2 * self.hist@.len() <= i32::MAX,
                scores@.len() == self.agents@.len(),
                counts_upto(scores@, self.hist@, i as int),
            decreases self.hist@.len() - i,
        {
            count_game(&mut scores, &self.hist, i);
            i += 1;
        }
        scores
    }

    /// What each recorded game in which the agent number `agent_idx` played
    /// was worth to it: 1 for a win, -1 for a loss, 0 for a draw.
    pub fn results_of(&self, agent_idx: usize) -> (results: Vec<i8>)
        ensures
            results@ == worths_to(self.hist@, self.hist@.len() as int, agent_idx),
    {
        let mut results: Vec<i8> = Vec::new();
        let mut i: usize = 0;
        while i < self.hist.len()
            invariant
                i <= self.hist@.len(),
                results@ == worths_to(self.hist@, i as int, agent_idx),
            decreases self.hist@.len() - i,
        {
            let (red, yellow, result) = self.hist[i];
            if red == agent_idx || yellow == agent_idx {
                let worth: i8 = match result {
                    GameState::Won(Player::Red) => if red == agent_idx {
                        1
                    } else {
                        -1
                    },
                    GameState::Won(Player::Yellow) => if yellow == agent_idx {
                        1
                    } else {
                        -1
                    },
                    _ => 0,
                };
                results.push(worth);
            }
            i += 1;
        }
        results
    }

    /// The counts of every agent after each of the recorded games.
    pub fn scores_hist(&self) -> (scores: Vec<Vec<[i32; 3]>>)
        requires
            self.wf(),
            2 * self.hist@.len() <= i32::MAX,
        ensures
            scores@.len() == self.hist@.len(),
            forall|k: int|
                0 <= k < scores@.len() ==> (#[trigger] scores@[k])@.len() == self.agents@.len()
                    && counts_upto(scores@[k]@, self.hist@, k + 1),
    {
        let mut scores: Vec<Vec<[i32; 3]>> = Vec::new();
        let mut current_scores = no_scores(self.agents.len());
        let mut i: usize = 0;
        while i < self.hist.len()
            invariant
                i <= self.hist@.len(),
                self.wf(),
                2 * self.hist@.len() <= i32::MAX,
                current_scores@.len() == self.agents@.len(),
                counts_upto(current_scores@, self.hist@, i as int),
                scores@.len() == i,
                forall|k: int|
                    0 <= k < i ==> (#[trigger] scores@[k])@.len() == self.agents@.len()
                        && counts_upto(scores@[k]@, self.hist@, k + 1),
            decreases self.hist@.len() - i,
        {
            count_game(&mut current_scores, &self.hist, i);
            let copy = copy_scores(&current_scores);
            scores.push(copy);
            i += 1;
        }
        scores
    }
}

/// The counts of `n` agents before any game.
fn no_scores(n: usize) -> (scores: Vec<[i32; 3]>)
    ensures
        scores@.len() == n,
        forall|hist: Seq<(usize, usize, GameState)>| counts_upto(scores@, hist, 0),
{
    let mut scores: Vec<[i32; 3]> = Vec::with_capacity(n);
    let mut a: usize = 0;
    while a < n
        invariant
            a <= n,
            scores@.len() == a,
            forall|j: int, kind: int|
                0 <= j < a && 0 <= kind < 3 ==> #[trigger] scores@[j][kind] == 0,
        decreases n - a,
    {
        scores.push([0, 0, 0]);
        a += 1;
    }
    scores
}

/// A copy of the counts.
fn copy_scores(scores: &Vec<[i32; 3]>) -> (copy: Vec<[i32; 3]>)
    ensures
        copy@ == scores@,
{
    let mut copy: Vec<[i32; 3]> = Vec::with_capacity(scores.len());
    let mut a: usize = 0;
    while a < scores.len()
        invariant
            a <= scores@.len(),
            copy@.len() == a,
            forall|j: int| 0 <= j < a ==> #[trigger] copy@[j] == scores@[j],
        decreases scores@.len() - a,
    {
        copy.push(scores[a]);
        a += 1;
    }
    assert(copy@ =~= scores@);
    copy
}

/// Adds one to the count `kind` of agent `a`.
fn add_one(scores: &mut Vec<[i32; 3]>, a: usize, kind: usize)
    requires
        a < old(scores)@.len(),
        kind < 3,
        old(scores)@[a as int][kind as int] < i32::MAX,
    ensures
        final(scores)@.len() == old(scores)@.len(),
        forall|j: int, k: int|
            0 <= j < old(scores)@.len() && 0 <= k < 3 ==> #[trigger] final(scores)@[j][k] == old(
                scores,
            )@[j][k] + (if j == a && k == kind {
                1int
            } else {
                0int
            }),
{
    let row = scores[a];
    let new_row: [i32; 3] = if kind == 0 {
        [row[0] + 1, row[1], row[2]]
    } else if kind == 1 {
        [row[0], row[1] + 1, row[2]]
    } else {
        [row[0], row[1], row[2] + 1]
    };
    scores[a] = new_row;
}

/// Counts the recorded game number `i` for the two agents that played it.
fn count_game(scores: &mut Vec<[i32; 3]>, hist: &Vec<(usize, usize, GameState)>, i: usize)
    requires
        i < hist@.len(),
        2 * hist@.len() <= i32::MAX,
        hist@[i as int].0 < old(scores)@.len(),
        hist@[i as int].1 < old(scores)@.len(),
        hist@[i as int].2 != GameState::InProgress,
        counts_upto(old(scores)@, hist@, i as int),
    ensures
        final(scores)@.len() == old(scores)@.len(),
        counts_upto(final(scores)@, hist@, i + 1),
{
    let (pr, py, result) = hist[i];
    proof {
        assert forall|a: int, kind: int| 0 <= a < scores@.len() && 0 <= kind < 3 implies 0
            <= #[trigger] scores@[a][kind] <= 2 * i by {
            lemma_tally_bound(hist@, i as int, a, kind);
        }
    }
    let (red_kind, yellow_kind): (usize, usize) = match result {
        GameState::Won(Player::Red) => (1, 2),
        GameState::Won(Player::Yellow) => (2, 1),
        _ => (0, 0),
    };
    add_one(scores, pr, red_kind);
    add_one(scores, py, yellow_kind);
}

} // verus!
