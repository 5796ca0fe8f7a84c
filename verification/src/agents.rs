//! Agents: how a player picks a move, on top of the search and an evaluator.

use vstd::prelude::*;
use crate::evaluators::{Evaluator, SimpleEval, INFINITY};
use crate::games::{Game, GameState, Player};
use crate::policies::{Policy, max_value, best_indices, is_best};
use crate::random::random_index;
use crate::search::{
    abnegamax, abnegamax_best_action, batch_abnegamax_best_action, bounds_hold, is_best_action,
    reply_values, reply_value, Bound, TranspositionTable,
};

verus! {

/// A player of the game `G`.
pub trait Agent<G: Game> {
    /// Whether the agent is set up so that it can search.
    spec fn ready(&self) -> bool;

    /// The move that the agent plays for `player` on `board`.
    fn get_action(&self, board: &G, player: Player) -> (action: G::Action)
        requires
            self.ready(),
            board.valid(),
            board.state() == GameState::InProgress,
        ensures
            board.moves().contains(action),
    ;

    /// The move that the agent plays, and whether it was played to explore
    /// rather than for its value.
    fn get_action_explored(&self, board: &G, player: Player) -> (r: (G::Action, bool))
        requires
            self.ready(),
            board.valid(),
            board.state() == GameState::InProgress,
        ensures
            board.moves().contains(r.0),
    {
        (self.get_action(board, player), false)
    }
}

/// Plays a best move of an alpha-beta search of fixed depth.
pub struct MinimaxAgent<'a, T> {
    pub evaluator: &'a T,
    pub depth: u32,
}

impl<'a, T> MinimaxAgent<'a, T> {
    /// An agent that searches `depth` plies deep with `evaluator`.
    pub fn new(evaluator: &'a T, depth: u32) -> (agent: Self)
        ensures
            agent.evaluator == evaluator,
            agent.depth == depth,
    {
        MinimaxAgent::<T> { evaluator, depth }
    }
}

impl<'a, T, G> Agent<G> for MinimaxAgent<'a, T> where G: Game, G::Action: Copy, T: Evaluator<G> {
    open spec fn ready(&self) -> bool {
        self.depth >= 1
    }

    fn get_action(&self, board: &G, player: Player) -> (action: G::Action)
        ensures
            is_best_action(*self.evaluator, *board, self.depth as nat, player, action),
    {
        abnegamax_best_action(board, self.depth, self.evaluator, player)
    }

    fn get_action_explored(&self, board: &G, player: Player) -> (r: (G::Action, bool))
        ensures
            is_best_action(*self.evaluator, *board, self.depth as nat, player, r.0),
            !r.1,
    {
        (abnegamax_best_action(board, self.depth, self.evaluator, player), false)
    }
}

/// Plays a best move of an alpha-beta search that values its leaves in
/// batches.
pub struct BatchMinimaxAgent<'a, T> {
    pub evaluator: &'a T,
    pub depth: u32,
    pub batch_depth: u32,
}

impl<'a, T> BatchMinimaxAgent<'a, T> {
    /// An agent that searches `depth` plies deep with `evaluator` and values
    /// the leaves in batches from `batch_depth` plies down.
    pub fn new(evaluator: &'a T, depth: u32, batch_depth: u32) -> (agent: Self)
        ensures
            agent.evaluator == evaluator,
            agent.depth == depth,
            agent.batch_depth == batch_depth,
    {
        BatchMinimaxAgent::<T> { evaluator, depth, batch_depth }
    }
}

impl<'a, T, G> Agent<G> for BatchMinimaxAgent<'a, T> where G: Game, G::Action: Copy, T: Evaluator<G> {
    open spec fn ready(&self) -> bool {
        self.depth >= 1
    }

    fn get_action(&self, board: &G, player: Player) -> (action: G::Action)
        ensures
            is_best_action(*self.evaluator, *board, self.depth as nat, player, action),
    {
        batch_abnegamax_best_action(board, self.depth, self.batch_depth, self.evaluator, player)
    }

    fn get_action_explored(&self, board: &G, player: Player) -> (r: (G::Action, bool))
        ensures
            is_best_action(*self.evaluator, *board, self.depth as nat, player, r.0),
            !r.1,
    {
        (
            batch_abnegamax_best_action(board, self.depth, self.batch_depth, self.evaluator, player),
            false,
        )
    }
}

/// The places at which `values` holds `wanted`, in ascending order.
pub fn places_of(values: &Vec<i64>, wanted: i64) -> (places: Vec<usize>)
    ensures
        forall|k: int|
            0 <= k < places@.len() ==> #[trigger] places@[k] < values@.len()
                && values@[places@[k] as int] == wanted,
        forall|k: int, l: int|
            0 <= k < l < places@.len() ==> #[trigger] places@[k] < #[trigger] places@[l],
        forall|i: int|
            0 <= i < values@.len() && values@[i] == wanted ==> #[trigger] places@.contains(
                i as usize,
            ),
{
    let mut places: Vec<usize> = Vec::new();
    let mut i: usize = 0;
    while i < values.len()
        invariant
            i <= values@.len(),
            forall|k: int|
                0 <= k < places@.len() ==> #[trigger] places@[k] < i && values@[places@[k] as int]
                    == wanted,
            forall|k: int, l: int|
                0 <= k < l < places@.len() ==> #[trigger] places@[k] < #[trigger] places@[l],
            forall|j: int|
                0 <= j < i && values@[j] == wanted ==> #[trigger] places@.contains(j as usize),
        decreases values@.len() - i,
    {
        if values[i] == wanted {
            let ghost before = places@;
            places.push(i);
            proof {
                assert(places@[before.len() as int] == i);
                assert forall|j: int| 0 <= j < i + 1 && values@[j] == wanted implies #[trigger] places@.contains(
                    j as usize,
                ) by {
                    if j < i {
                        assert(before.contains(j as usize));
                        let k = choose|k: int| 0 <= k < before.len() && before[k] == j as usize;
                        assert(places@[k] == j as usize);
                    }
                }
            }
        }
        i += 1;
    }
    places
}

/// The places at which `values` is neither `INFINITY` nor `-INFINITY`, in
/// ascending order.
pub fn open_places(values: &Vec<i64>) -> (places: Vec<usize>)
    ensures
        forall|k: int|
            0 <= k < places@.len() ==> #[trigger] places@[k] < values@.len() && -INFINITY
                != values@[places@[k] as int] && values@[places@[k] as int] != INFINITY,
        forall|k: int, l: int|
            0 <= k < l < places@.len() ==> #[trigger] places@[k] < #[trigger] places@[l],
        forall|i: int|
            0 <= i < values@.len() && values@[i] != INFINITY && values@[i] != -INFINITY
                ==> #[trigger] places@.contains(i as usize),
{
    let mut places: Vec<usize> = Vec::new();
    let mut i: usize = 0;
    while i < values.len()
        invariant
            i <= values@.len(),
            forall|k: int|
                0 <= k < places@.len() ==> #[trigger] places@[k] < i && -INFINITY
                    != values@[places@[k] as int] && values@[places@[k] as int] != INFINITY,
            forall|k: int, l: int|
                0 <= k < l < places@.len() ==> #[trigger] places@[k] < #[trigger] places@[l],
            forall|j: int|
                0 <= j < i && values@[j] != INFINITY && values@[j] != -INFINITY
                    ==> #[trigger] places@.contains(j as usize),
        decreases values@.len() - i,
    {
        if values[i] != INFINITY && values[i] != -INFINITY {
            let ghost before = places@;
            places.push(i);
            proof {
                assert(places@[before.len() as int] == i);
                assert forall|j: int|
                    0 <= j < i + 1 && values@[j] != INFINITY && values@[j]
                        != -INFINITY implies #[trigger] places@.contains(j as usize) by {
                    if j < i {
                        assert(before.contains(j as usize));
                        let k = choose|k: int| 0 <= k < before.len() && before[k] == j as usize;
                        assert(places@[k] == j as usize);
                    }
                }
            }
        }
        i += 1;
    }
    places
}

/// Plays a move that wins by force if the search finds one, never a move
/// that loses by force if another is left, and lets a policy pick among the
/// moves whose outcome the search leaves open.
pub struct MinimaxPolicyAgent<'a, T, P: ?Sized> {
    pub evaluator: &'a T,
    pub policy: &'a P,
    pub depth: u32,
    pub batch_depth: u32,
}

impl<'a, T, P: ?Sized> MinimaxPolicyAgent<'a, T, P> {
    /// An agent that searches `depth` plies deep with `evaluator`, without
    /// batches, and lets `policy` pick among the open moves.
    pub fn new(evaluator: &'a T, policy: &'a P, depth: u32) -> (agent: Self)
        ensures
            agent.evaluator == evaluator,
            agent.policy == policy,
            agent.depth == depth,
            agent.batch_depth == 0,
    {
        MinimaxPolicyAgent::<T, P> { evaluator, policy, depth, batch_depth: 0 }
    }
}

/// What the policy agent may answer on `board`, given the value of each
/// legal move: a winning move if there is one; else a move whose outcome is
/// open, if there is one, and it explores exactly when that move is worth
/// less than the best open one; else any legal move.
pub open spec fn policy_answer(values: Seq<i64>, chosen: int, explored: bool) -> bool {
    &&& 0 <= chosen < values.len()
    &&& if exists|j: int| 0 <= j < values.len() && values[j] == INFINITY {
        values[chosen] == INFINITY && !explored
    } else if exists|j: int| 0 <= j < values.len() && values[j] != -INFINITY {
        &&& values[chosen] != -INFINITY
        &&& explored == exists|j: int|
            0 <= j < values.len() && values[j] != -INFINITY && values[j] > values[chosen]
    } else {
        !explored
    }
}

impl<'a, T, P: ?Sized> MinimaxPolicyAgent<'a, T, P> where P: Policy {
    /// The choice among moves with the given values: the index of the chosen
    /// move, and whether it explores.
    pub fn choose_among(&self, values: &Vec<i64>) -> (r: (usize, bool))
        requires
            values@.len() > 0,
            forall|i: int| 0 <= i < values@.len() ==> -INFINITY <= #[trigger] values@[i] <= INFINITY,
        ensures
            policy_answer(values@, r.0 as int, r.1),
    {
        let n = values.len();
        let winning = places_of(values, INFINITY);
        if winning.len() != 0 {
            let chosen = winning[random_index(winning.len())];
            assert(values@[chosen as int] == INFINITY);
            return (chosen, false);
        }
        assert forall|j: int| 0 <= j < values@.len() implies values@[j] != INFINITY by {
            if values@[j] == INFINITY {
                assert(winning@.contains(j as usize));
            }
        }
        let open = open_places(values);
        if open.len() != 0 {
            let mut vals: Vec<i64> = Vec::with_capacity(open.len());
            let mut k: usize = 0;
            while k < open.len()
                invariant
                    k <= open@.len(),
                    vals@.len() == k,
                    forall|l: int|
                        0 <= l < open@.len() ==> #[trigger] open@[l] < values@.len(),
                    forall|l: int| 0 <= l < k ==> #[trigger] vals@[l] == values@[open@[l] as int],
                decreases open@.len() - k,
            {
                vals.push(values[open[k]]);
                k += 1;
            }
            let max_av = max_value(&vals);
            let i = self.policy.pick(&vals);
            let chosen = open[i];
            let explored = max_av != vals[i];
            proof {
                assert(values@[open@[i as int] as int] != -INFINITY);
                if explored {
                    let l = choose|l: int| 0 <= l < vals@.len() && vals@[l] == max_av;
                    assert(vals@[i as int] <= max_av);
                    assert(values@[open@[l] as int] > values@[chosen as int]);
                } else {
                    assert forall|j: int|
                        (0 <= j < values@.len() && values@[j] != -INFINITY) implies (values@[j]
                        <= values@[chosen as int]) by {
                        assert(open@.contains(j as usize));
                        let l = choose|l: int| 0 <= l < open@.len() && open@[l] == j as usize;
                        assert(vals@[l] <= max_av);
                    }
                }
            }
            return (chosen, explored);
        }
        assert forall|j: int| 0 <= j < values@.len() implies values@[j] == -INFINITY by {
            if values@[j] != -INFINITY {
                assert(open@.contains(j as usize));
            }
        }
        (random_index(n), false)
    }
}

impl<'a, T, P, G> Agent<G> for MinimaxPolicyAgent<'a, T, P> where
    G: Game,
    G::Action: Copy,
    T: Evaluator<G>,
    P: Policy + ?Sized,
 {
    open spec fn ready(&self) -> bool {
        self.depth >= 1
    }

    fn get_action(&self, board: &G, player: Player) -> (action: G::Action)
        ensures
            exists|i: int, explored: bool|
                0 <= i < board.moves().len() && board.moves()[i] == action && #[trigger] policy_answer(
                    replies(*self.evaluator, *board, self.depth as nat, player),
                    i,
                    explored,
                ),
    {
        self.get_action_explored(board, player).0
    }

    fn get_action_explored(&self, board: &G, player: Player) -> (r: (G::Action, bool))
        ensures
            exists|i: int|
                0 <= i < board.moves().len() && board.moves()[i] == r.0 && policy_answer(
                    replies(*self.evaluator, *board, self.depth as nat, player),
                    i,
                    r.1,
                ),
    {
        let mut tt = TranspositionTable::new();
        let (actions, values) = reply_values(
            board,
            self.depth,
            self.batch_depth,
            self.evaluator,
            player,
            &mut tt,
        );
        proof {
            G::lemma_in_progress_can_move(*board);
        }
        let (chosen, explored) = self.choose_among(&values);
        proof {
            assert(values@ =~= replies(*self.evaluator, *board, self.depth as nat, player));
        }
        (actions[chosen], explored)
    }
}

/// The value of each legal move of `board` to `player`, `depth` plies deep.
pub open spec fn replies<G: Game, E: Evaluator<G>>(
    e: E,
    board: G,
    depth: nat,
    player: Player,
) -> Seq<i64> {
    Seq::new(board.moves().len(), |j: int| reply_value(e, board, depth, player, j) as i64)
}

/// Searches in two passes. The first, with the evaluator that knows
/// finished games only, tells winning moves from losing and unclear ones:
/// a winning move is played if there is one. The second values the unclear
/// moves with the agent's own evaluator. Only where every move loses is a
/// losing move played.
pub struct CompositeAgent<'a, T> {
    pub evaluator: &'a T,
    pub depth: u32,
    /// How deep the first pass searches.
    pub simple_depth: u32,
    pub batch_depth: u32,
}

impl<'a, T> CompositeAgent<'a, T> {
    /// An agent whose first pass searches `simple_depth` plies deep and
    /// whose second pass searches `depth` plies deep with `evaluator`.
    pub fn new(evaluator: &'a T, depth: u32, batch_depth: u32, simple_depth: u32) -> (agent: Self)
        ensures
            agent.evaluator == evaluator,
            agent.depth == depth,
            agent.batch_depth == batch_depth,
            agent.simple_depth == simple_depth,
    {
        CompositeAgent::<T> { evaluator, depth, simple_depth, batch_depth }
    }
}

/// What the composite agent answers, given the values of the first pass and
/// those of the second: the first of the best moves of the first pass,
/// unless that pass finds no win and leaves moves unclear; then the first
/// of the unclear moves that the second pass values most.
pub open spec fn composite_answer(simple: Seq<i64>, full: Seq<i64>, chosen: int) -> bool {
    &&& 0 <= chosen < simple.len()
    &&& if is_best(simple, chosen) && simple[chosen] == 0 {
        &&& forall|j: int|
            0 <= j < simple.len() && simple[j] == 0 ==> #[trigger] full[j] <= full[chosen]
        &&& forall|j: int| 0 <= j < chosen && simple[j] == 0 ==> #[trigger] full[j] < full[chosen]
    } else {
        &&& is_best(simple, chosen)
        &&& forall|j: int| 0 <= j < chosen ==> #[trigger] simple[j] < simple[chosen]
    }
}

impl<'a, T, G> Agent<G> for CompositeAgent<'a, T> where G: Game, G::Action: Copy, T: Evaluator<G> {
    open spec fn ready(&self) -> bool {
        self.depth >= 1 && self.simple_depth >= 1
    }

    fn get_action(&self, board: &G, player: Player) -> (action: G::Action)
        ensures
            exists|i: int|
                0 <= i < board.moves().len() && board.moves()[i] == action && composite_answer(
                    replies(SimpleEval {  }, *board, self.simple_depth as nat, player),
                    replies(*self.evaluator, *board, self.depth as nat, player),
                    i,
                ),
    {
        let simple_eval = SimpleEval::new();
        let mut tt: TranspositionTable<Bound<G>> = TranspositionTable::new();
        let (actions, simple) = reply_values(
            board,
            self.simple_depth,
            0,
            &simple_eval,
            player,
            &mut tt,
        );
        let ghost simple_spec = replies(simple_eval, *board, self.simple_depth as nat, player);
        let ghost full_spec = replies(*self.evaluator, *board, self.depth as nat, player);
        proof {
            G::lemma_in_progress_can_move(*board);
            assert(simple@ =~= simple_spec);
        }
        let n = simple.len();
        let mx = max_value(&simple);
        if mx != 0 {
            let best = best_indices(&simple);
            let chosen = best[0];
            proof {
                assert forall|j: int| 0 <= j < chosen implies #[trigger] simple@[j]
                    < simple@[chosen as int] by {
                    if simple@[j] >= simple@[chosen as int] {
                        assert(is_best(simple@, j));
                        assert(best@.contains(j as usize));
                        let k = choose|k: int| 0 <= k < best@.len() && best@[k] == j as usize;
                        assert(best@[0] <= best@[k]) by {
                            if k > 0 {
                                assert(best@[0] < best@[k]);
                            }
                        }
                    }
                }
                assert(composite_answer(simple_spec, full_spec, chosen as int));
            }
            return actions[chosen];
        }
        let mut position = *board;
        let mut tt2: TranspositionTable<Bound<G>> = TranspositionTable::new();
        let mut chosen: usize = 0;
        let mut chosen_value: i64 = 0;
        let mut found = false;
        let mut i: usize = 0;
        while i < n
            invariant
                i <= n,
                n == simple@.len(),
                n == actions@.len(),
                actions@ == board.moves(),
                position == *board,
                board.valid(),
                board.state() == GameState::InProgress,
                self.depth >= 1,
                bounds_hold(tt2, *self.evaluator),
                full_spec == replies(*self.evaluator, *board, self.depth as nat, player),
                found ==> chosen < i && simple@[chosen as int] == 0 && chosen_value
                    == full_spec[chosen as int],
                found ==> forall|j: int|
                    0 <= j < i && simple@[j] == 0 ==> #[trigger] full_spec[j] <= chosen_value,
                found ==> forall|j: int|
                    0 <= j < chosen && simple@[j] == 0 ==> #[trigger] full_spec[j] < chosen_value,
                !found ==> forall|j: int| 0 <= j < i ==> #[trigger] simple@[j] != 0,
            decreases n - i,
        {
            if simple[i] == 0 {
                let action = actions[i];
                proof {
                    assert(board.moves().contains(action));
                    G::lemma_play_and_reverse(*board, action);
                    crate::search::lemma_negamax_range(
                        *self.evaluator,
                        board.after(action),
                        (self.depth - 1) as nat,
                        player.other(),
                    );
                }
                position.play_action(action);
                let v = -abnegamax(
                    &position,
                    self.depth - 1,
                    self.batch_depth,
                    self.evaluator,
                    player.opponent(),
                    Some(&mut tt2),
                );
                position.reverse_last_action(action);
                assert(v == full_spec[i as int]);
                if !found || v > chosen_value {
                    chosen = i;
                    chosen_value = v;
                    found = true;
                }
            }
            i += 1;
        }
        proof {
            let k = choose|k: int| 0 <= k < simple@.len() && simple@[k] == mx;
            assert(found);
            assert(is_best(simple@, chosen as int));
            assert(composite_answer(simple_spec, full_spec, chosen as int));
        }
        actions[chosen]
    }

    fn get_action_explored(&self, board: &G, player: Player) -> (r: (G::Action, bool))
        ensures
            exists|i: int|
                0 <= i < board.moves().len() && board.moves()[i] == r.0 && composite_answer(
                    replies(SimpleEval {  }, *board, self.simple_depth as nat, player),
                    replies(*self.evaluator, *board, self.depth as nat, player),
                    i,
                ),
            !r.1,
    {
        (self.get_action(board, player), false)
    }
}

} // verus!
