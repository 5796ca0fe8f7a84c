//! Learning from played games: how an episode is played, which of its
//! positions a player learns from, and towards what.

use vstd::prelude::*;
use crate::agents::{Agent, BatchMinimaxAgent, MinimaxPolicyAgent};
use crate::evaluators::{bounded_sum, params_after, Trainable, INFINITY};
use crate::games::{Game, GameState, Player};
use crate::matchmaker::{
    follows, lemma_played_on, lemma_played_positions, played_by_rules, played_out,
    position_before,
};
use crate::policies::Policy;
use crate::random::random_bool;
use crate::search::{abnegamax, lemma_negamax_by_values, negamax_value};

verus! {

/// The positions of a recorded game, without the marks of exploration.
pub open spec fn positions_of<G: Game>(game_hist: Seq<(G, bool)>) -> Seq<G> {
    Seq::new(game_hist.len(), |i: int| game_hist[i].0)
}

/// Lets two agents play a game: `red` moves for Red, who starts, `yellow`
/// for Yellow. Returns the position after every move, the final one
/// included, each with the mark whether the move that led to it was played
/// to explore.
pub fn episode<G: Game, A1: Agent<G> + ?Sized, A2: Agent<G> + ?Sized>(red: &A1, yellow: &A2) -> (boards:
    Vec<(G, bool)>)
    requires
        red.ready(),
        yellow.ready(),
    ensures
        played_out(positions_of(boards@)),
{
    let mut boards: Vec<(G, bool)> = Vec::new();
    let mut board = G::new();
    let mut b = true;
    let start_player_is_red = board.cur_player() == Player::Red;
    proof {
        assert(positions_of(boards@) =~= Seq::<G>::empty());
    }
    while board.game_state() == GameState::InProgress
        invariant
            red.ready(),
            yellow.ready(),
            board.valid(),
            board == position_before(positions_of(boards@), boards@.len() as int),
            played_by_rules(positions_of(boards@)),
        decreases board.room(),
    {
        let ghost prev = board;
        let ghost before = positions_of(boards@);
        let (action, explored) = if b == start_player_is_red {
            red.get_action_explored(&board, board.cur_player())
        } else {
            yellow.get_action_explored(&board, board.cur_player())
        };
        proof {
            G::lemma_play_and_reverse(prev, action);
        }
        board.play_action(action);
        b = !b;
        boards.push((board, explored));
        proof {
            let k = choose|k: int| 0 <= k < prev.moves().len() && prev.moves()[k] == action;
            assert(board == prev.after(prev.moves()[k]));
            assert(positions_of(boards@) =~= before.push(board));
            assert(position_before(before.push(board), before.len() as int) == prev);
            lemma_played_on(before, board);
        }
    }
    boards
}

/// What a finished game is worth to `player`: 1 for a win, -1 for a loss, 0
/// for a draw.
pub open spec fn reward_of(state: GameState, player: Player) -> i8 {
    match state {
        GameState::Won(p) => if p == player {
            1i8
        } else {
            (-1i8)
        },
        _ => 0i8,
    }
}

/// What a finished game is worth to `player`: 1 for a win, -1 for a loss, 0
/// for a draw.
pub fn reward(state: GameState, player: Player) -> (r: i8)
    requires
        state != GameState::InProgress,
    ensures
        r == reward_of(state, player),
{
    match state {
        GameState::Won(p) => {
            if p == player {
                1
            } else {
                -1
            }
        },
        GameState::Draw => 0,
        GameState::InProgress => 0,
    }
}

/// The reward that a value of the search stands for where the search has
/// found a forced end: 1 for `INFINITY`, -1 for `-INFINITY`. Every other
/// value is an estimate and stands for itself.
pub fn forced_outcome(value: i64) -> (r: Option<i8>)
    ensures
        value == INFINITY ==> r == Some(1i8),
        value == -INFINITY ==> r == Some((-1i8)),
        value != INFINITY && value != -INFINITY ==> r.is_none(),
{
    if value == INFINITY {
        Some(1)
    } else if value == -INFINITY {
        Some(-1)
    } else {
        None
    }
}

/// The places among the first `n` of a recorded game at which `player` is
/// to move, in ascending order.
pub open spec fn places_to_move<G: Game>(game_hist: Seq<(G, bool)>, player: Player, n: int) -> Seq<
    usize,
>
    decreases n,
{
    if n <= 0 {
        Seq::empty()
    } else if game_hist[n - 1].0.mover() == player {
        places_to_move(game_hist, player, n - 1).push((n - 1) as usize)
    } else {
        places_to_move(game_hist, player, n - 1)
    }
}

/// Every place to move lies in the range from which it was taken.
pub proof fn lemma_places_to_move<G: Game>(game_hist: Seq<(G, bool)>, player: Player, n: int)
    requires
        0 <= n <= game_hist.len(),
        n <= usize::MAX,
    ensures
        places_to_move(game_hist, player, n).len() <= n,
        forall|i: int|
            0 <= i < places_to_move(game_hist, player, n).len() ==> (#[trigger] places_to_move(
                game_hist,
                player,
                n,
            )[i]) < n && game_hist[places_to_move(game_hist, player, n)[i] as int].0.mover()
                == player,
    decreases n,
{
    if n > 0 {
        lemma_places_to_move(game_hist, player, n - 1);
        let prev = places_to_move(game_hist, player, n - 1);
        let cur = places_to_move(game_hist, player, n);
        assert forall|i: int| 0 <= i < cur.len() implies (#[trigger] cur[i]) < n
            && game_hist[cur[i] as int].0.mover() == player by {
            if i < prev.len() {
                assert(cur[i] == prev[i]);
            }
        }
    }
}

/// The places of a recorded game at which `player` is to move.
pub fn states_of<G: Game>(game_hist: &Vec<(G, bool)>, player: Player) -> (states: Vec<usize>)
    ensures
        states@ == places_to_move(game_hist@, player, game_hist@.len() as int),
        forall|i: int| 0 <= i < states@.len() ==> #[trigger] states@[i] < game_hist@.len(),
{
    let mut states: Vec<usize> = Vec::with_capacity(game_hist.len() / 2 + 1);
    let mut i: usize = 0;
    while i < game_hist.len()
        invariant
            i <= game_hist@.len(),
            states@ == places_to_move(game_hist@, player, i as int),
        decreases game_hist@.len() - i,
    {
        if game_hist[i].0.cur_player() == player {
            states.push(i);
        }
        i += 1;
    }
    proof {
        assert(i == game_hist@.len());
        lemma_places_to_move(game_hist@, player, game_hist@.len() as int);
    }
    states
}

/// Towards what a position is moved.
#[derive(Clone, Copy, PartialEq, Eq, Debug)]
pub enum TdTarget {
    /// The reward of the finished game.
    Reward(i8),
    /// The value that a search finds for the position at this place of the
    /// recorded game.
    Search(usize),
}

/// One step of an update: the place of the position that is updated,
/// whether the trace is cleared before it, and the target.
#[derive(Clone, Copy, PartialEq, Eq, Debug)]
pub struct TdStep {
    pub state: usize,
    pub explored: bool,
    pub target: TdTarget,
}

/// The step number `i` of the update of `player` from a recorded game.
pub open spec fn step_of<G: Game>(game_hist: Seq<(G, bool)>, player: Player, i: int) -> TdStep {
    let states = places_to_move(game_hist, player, game_hist.len() as int);
    TdStep {
        state: states[i],
        explored: game_hist[states[i] as int].1,
        target: if i == states.len() - 2 {
            TdTarget::Reward(reward_of(game_hist.last().0.state(), player))
        } else {
            TdTarget::Search(states[i + 1])
        },
    }
}

/// The steps of the update of `player` from a recorded game. Every position
/// in which `player` is to move is updated but the last: the last but one
/// towards the reward of the game, each of the others towards the value
/// that a search finds for the next of them. The trace is cleared before a
/// position that was reached by a move played to explore.
pub fn plan_update<G: Game>(game_hist: &Vec<(G, bool)>, player: Player) -> (plan: Vec<TdStep>)
    requires
        game_hist@.len() > 0 ==> game_hist@.last().0.state() != GameState::InProgress,
    ensures
        plan@.len() == (if places_to_move(game_hist@, player, game_hist@.len() as int).len() == 0 {
            0
        } else {
            places_to_move(game_hist@, player, game_hist@.len() as int).len() - 1
        }),
        forall|i: int| 0 <= i < plan@.len() ==> #[trigger] plan@[i] == step_of(game_hist@, player, i),
{
    let states = states_of(game_hist, player);
    let mut plan: Vec<TdStep> = Vec::new();
    if states.len() == 0 {
        return plan;
    }
    let mut i: usize = 0;
    while i < states.len() - 1
        invariant
            i <= states@.len() - 1,
            states@.len() > 0,
            states@ == places_to_move(game_hist@, player, game_hist@.len() as int),
            forall|j: int| 0 <= j < states@.len() ==> #[trigger] states@[j] < game_hist@.len(),
            game_hist@.len() > 0 ==> game_hist@.last().0.state() != GameState::InProgress,
            plan@.len() == i,
            forall|j: int| 0 <= j < i ==> #[trigger] plan@[j] == step_of(game_hist@, player, j),
        decreases states@.len() - i,
    {
        let target = if i == states.len() - 2 {
            let end = game_hist[game_hist.len() - 1].0.game_state();
            TdTarget::Reward(reward(end, player))
        } else {
            TdTarget::Search(states[i + 1])
        };
        plan.push(TdStep { state: states[i], explored: game_hist[states[i]].1, target });
        i += 1;
    }
    plan
}

/// Towards what the value of a position is moved, once the search has been
/// asked: the reward of a finished or decided game, or an estimate.
#[derive(Clone, Copy, PartialEq, Eq, Debug)]
pub enum Target {
    Reward(i8),
    Value(i64),
}

/// The target that a value of the search stands for: the reward where the
/// search has found a forced end, the value itself where it has not.
pub open spec fn target_for(value: i64) -> Target {
    if value == INFINITY {
        Target::Reward(1i8)
    } else if value == -INFINITY {
        Target::Reward((-1i8))
    } else {
        Target::Value(value)
    }
}

/// The target that a value of the search stands for: the reward where the
/// search has found a forced end, the value itself where it has not.
pub fn target_of(value: i64) -> (t: Target)
    ensures
        t == target_for(value),
        value == INFINITY ==> t == Target::Reward(1i8),
        value == -INFINITY ==> t == Target::Reward((-1i8)),
        value != INFINITY && value != -INFINITY ==> t == Target::Value(value),
{
    match forced_outcome(value) {
        Some(r) => Target::Reward(r),
        None => Target::Value(value),
    }
}

/// How many steps of a rate make up 1.
pub const RATE_UNIT: i64 = 1048576;

/// The numbers of a learner, in fixed point. Step size, discount and decay
/// are rates, counted in steps of `1 / RATE_UNIT`; the two units say how
/// many steps of the evaluator's values, and of its gradients, make up 1.
#[derive(Clone, Copy, PartialEq, Eq, Debug)]
pub struct Rates {
    pub step_size: i64,
    pub discount: i64,
    /// Decay of the eligibility traces.
    pub lambda: i64,
    pub value_unit: i64,
    pub gradient_unit: i64,
}

/// A number cut to fit the machine word.
pub open spec fn clamped(v: int) -> i64 {
    if v > i64::MAX {
        i64::MAX
    } else if v < i64::MIN {
        i64::MIN
    } else {
        v as i64
    }
}

/// The product of `a` and `b`, counted in units of `unit`: the quotient of
/// the product by `unit`, rounded towards zero and cut to fit the machine
/// word.
pub open spec fn scaled(a: i64, b: i64, unit: i64) -> i64 {
    let p = a * b;
    clamped(
        if p >= 0 {
            p / (unit as int)
        } else {
            -((-p) / (unit as int))
        },
    )
}

/// What a target is worth in steps of the evaluator's values: a reward
/// times the value unit, an estimate itself.
pub open spec fn worth_of(rates: Rates, target: Target) -> i64 {
    match target {
        Target::Reward(r) => scaled(r as i64, rates.value_unit, 1),
        Target::Value(v) => v,
    }
}

/// The difference of the discounted target and the current value.
pub open spec fn error_of(rates: Rates, target: Target, current: i64) -> i64 {
    clamped(scaled(rates.discount, worth_of(rates, target), RATE_UNIT) - current)
}

/// The change of a parameter: its trace, times the difference of the
/// discounted target and the current value, times the step size, in steps
/// of the parameter.
pub open spec fn delta_of(rates: Rates, trace: i64, target: Target, current: i64) -> i64 {
    scaled(
        scaled(
            scaled(trace, error_of(rates, target, current), rates.gradient_unit),
            rates.step_size,
            RATE_UNIT,
        ),
        1,
        rates.gradient_unit,
    )
}

/// As many zeros as `n`.
pub open spec fn zeros(n: nat) -> Seq<i64> {
    Seq::new(n, |i: int| 0i64)
}

/// The traces set to zero. Where there are none yet, there are none after.
pub open spec fn cleared(trace: Option<Seq<i64>>) -> Option<Seq<i64>> {
    match trace {
        Some(t) => Some(zeros(t.len())),
        None => None,
    }
}

/// The traces after one gradient: each trace, times the decay, plus the
/// entry of the gradient, as far as the gradient reaches. Where there are
/// no traces yet, they start as zeros, one for each entry of the gradient.
pub open spec fn decayed(lambda: i64, trace: Option<Seq<i64>>, gradient: Seq<i64>) -> Option<
    Seq<i64>,
> {
    let t = match trace {
        Some(t) => t,
        None => zeros(gradient.len()),
    };
    Some(
        Seq::new(
            t.len(),
            |i: int|
                if i < gradient.len() {
                    bounded_sum(scaled(lambda, t[i], RATE_UNIT), gradient[i])
                } else {
                    t[i]
                },
        ),
    )
}

/// The change of each parameter that the traces give for a target and a
/// current value. Without traces there are no changes.
pub open spec fn deltas_of(
    rates: Rates,
    trace: Option<Seq<i64>>,
    target: Target,
    current: i64,
) -> Seq<i64> {
    match trace {
        Some(t) => Seq::new(t.len(), |i: int| delta_of(rates, t[i], target, current)),
        None => Seq::empty(),
    }
}

/// The product of two machine words fits twice their width.
proof fn lemma_product_fits(a: i64, b: i64)
    by (nonlinear_arith)
    ensures
        -0x4000_0000_0000_0000_0000_0000_0000_0000 <= a * b
            <= 0x4000_0000_0000_0000_0000_0000_0000_0000,
{
}

/// The product of `a` and `b`, counted in units of `unit`.
pub fn scale(a: i64, b: i64, unit: i64) -> (r: i64)
    requires
        unit > 0,
    ensures
        r == scaled(a, b, unit),
{
    proof {
        lemma_product_fits(a, b);
    }
    let p: i128 = (a as i128) * (b as i128);
    let q: i128 = if p >= 0 {
        p / (unit as i128)
    } else {
        -((-p) / (unit as i128))
    };
    if q > i64::MAX as i128 {
        i64::MAX
    } else if q < i64::MIN as i128 {
        i64::MIN
    } else {
        q as i64
    }
}

/// The change of a parameter that its trace gives for a target and a
/// current value.
pub fn delta(rates: &Rates, trace: i64, target: Target, current: i64) -> (d: i64)
    requires
        rates.gradient_unit > 0,
    ensures
        d == delta_of(*rates, trace, target, current),
{
    let worth = match target {
        Target::Reward(r) => scale(r as i64, rates.value_unit, 1),
        Target::Value(v) => v,
    };
    let discounted = scale(rates.discount, worth, RATE_UNIT);
    let wide: i128 = discounted as i128 - current as i128;
    let error: i64 = if wide > i64::MAX as i128 {
        i64::MAX
    } else if wide < i64::MIN as i128 {
        i64::MIN
    } else {
        wide as i64
    };
    let credit = scale(trace, error, rates.gradient_unit);
    let step = scale(credit, rates.step_size, RATE_UNIT);
    scale(step, 1, rates.gradient_unit)
}

/// The eligibility traces of a learner, one for each parameter, together
/// with the learner's rates. The traces count in the steps of the
/// evaluator's gradients.
pub trait Traces {
    /// The rates of the learner.
    spec fn rates(&self) -> Rates;

    /// The traces, if there are any yet.
    spec fn trace(&self) -> Option<Seq<i64>>;

    /// Sets every trace to zero.
    fn reset(&mut self)
        ensures
            final(self).rates() == old(self).rates(),
            final(self).trace() == cleared(old(self).trace()),
    ;

    /// Lets every trace decay and adds the gradient to it.
    fn decay_and_add(&mut self, gradient: &Vec<i64>)
        ensures
            final(self).rates() == old(self).rates(),
            final(self).trace() == decayed(old(self).rates().lambda, old(self).trace(), gradient@),
    ;

    /// The change of each parameter: its trace, times the difference of the
    /// discounted target and the current value, times the step size.
    fn deltas(&self, target: Target, current: i64) -> (d: Vec<i64>)
        requires
            self.rates().gradient_unit > 0,
        ensures
            d@ == deltas_of(self.rates(), self.trace(), target, current),
    ;
}

/// Eligibility traces in a vector, which is made when the first gradient
/// comes.
pub struct TdTraces {
    pub rates: Rates,
    pub eligibilty_trace: Option<Vec<i64>>,
}

impl TdTraces {
    /// Traces for a learner with the given step size and units, without
    /// discount and without decay, and with no trace as yet.
    pub fn new(step_size: i64, value_unit: i64, gradient_unit: i64) -> (t: Self)
        ensures
            t.rates == (Rates {
                step_size,
                discount: RATE_UNIT,
                lambda: 0,
                value_unit,
                gradient_unit,
            }),
            t.eligibilty_trace.is_none(),
    {
        TdTraces {
            rates: Rates { step_size, discount: RATE_UNIT, lambda: 0, value_unit, gradient_unit },
            eligibilty_trace: None,
        }
    }
}

/// A vector of `n` zeros.
fn zero_vec(n: usize) -> (v: Vec<i64>)
    ensures
        v@ == zeros(n as nat),
{
    let mut v: Vec<i64> = Vec::with_capacity(n);
    let mut i: usize = 0;
    while i < n
        invariant
            i <= n,
            v@.len() == i,
            forall|j: int| 0 <= j < i ==> #[trigger] v@[j] == 0,
        decreases n - i,
    {
        v.push(0);
        i += 1;
    }
    assert(v@ =~= zeros(n as nat));
    v
}

/// Lets every entry of `trace` decay and adds the entry of the gradient to
/// it, as far as the gradient reaches.
fn decay_into(trace: &mut Vec<i64>, lambda: i64, gradient: &Vec<i64>)
    ensures
        Some(final(trace)@) == decayed(lambda, Some(old(trace)@), gradient@),
{
    let n = if trace.len() < gradient.len() {
        trace.len()
    } else {
        gradient.len()
    };
    let mut i: usize = 0;
    while i < n
        invariant
            i <= n,
            n <= gradient@.len(),
            n <= trace@.len(),
            n == trace@.len() || n == gradient@.len(),
            trace@.len() == old(trace)@.len(),
            forall|j: int|
                0 <= j < trace@.len() ==> #[trigger] trace@[j] == (if j < i {
                    bounded_sum(scaled(lambda, old(trace)@[j], RATE_UNIT), gradient@[j])
                } else {
                    old(trace)@[j]
                }),
        decreases n - i,
    {
        let kept = scale(lambda, trace[i], RATE_UNIT);
        let g = gradient[i];
        let sum: i64 = if g > 0 && kept > i64::MAX - g {
            i64::MAX
        } else if g < 0 && kept < i64::MIN - g {
            i64::MIN
        } else {
            kept + g
        };
        trace[i] = sum;
        i += 1;
    }
    assert(Some(trace@) =~= decayed(lambda, Some(old(trace)@), gradient@)) by {
        assert(trace@ =~= decayed(lambda, Some(old(trace)@), gradient@).unwrap());
    }
}

impl Traces for TdTraces {
    open spec fn rates(&self) -> Rates {
        self.rates
    }

    open spec fn trace(&self) -> Option<Seq<i64>> {
        match self.eligibilty_trace {
            Some(v) => Some(v@),
            None => None,
        }
    }

    fn reset(&mut self) {
        let fresh = match &self.eligibilty_trace {
            Some(trace) => Some(zero_vec(trace.len())),
            None => None,
        };
        self.eligibilty_trace = fresh;
    }

    fn decay_and_add(&mut self, gradient: &Vec<i64>) {
        let mut trace = match &self.eligibilty_trace {
            Some(trace) => copy_of(trace),
            None => zero_vec(gradient.len()),
        };
        decay_into(&mut trace, self.rates.lambda, gradient);
        self.eligibilty_trace = Some(trace);
    }

    fn deltas(&self, target: Target, current: i64) -> (d: Vec<i64>) {
        match &self.eligibilty_trace {
            None => {
                let d: Vec<i64> = Vec::new();
                assert(d@ =~= Seq::<i64>::empty());
                d
            },
            Some(trace) => {
                let mut d: Vec<i64> = Vec::with_capacity(trace.len());
                let mut i: usize = 0;
                while i < trace.len()
                    invariant
                        i <= trace@.len(),
                        self.rates.gradient_unit > 0,
                        d@.len() == i,
                        forall|j: int|
                            0 <= j < i ==> #[trigger] d@[j] == delta_of(
                                self.rates,
                                trace@[j],
                                target,
                                current,
                            ),
                    decreases trace@.len() - i,
                {
                    d.push(delta(&self.rates, trace[i], target, current));
                    i += 1;
                }
                assert(d@ =~= deltas_of(self.rates, Some(trace@), target, current));
                d
            },
        }
    }
}

/// A copy of a vector of numbers.
fn copy_of(v: &Vec<i64>) -> (copy: Vec<i64>)
    ensures
        copy@ == v@,
{
    let mut copy: Vec<i64> = Vec::with_capacity(v.len());
    let mut i: usize = 0;
    while i < v.len()
        invariant
            i <= v@.len(),
            copy@.len() == i,
            forall|j: int| 0 <= j < i ==> #[trigger] copy@[j] == v@[j],
        decreases v@.len() - i,
    {
        copy.push(v[i]);
        i += 1;
    }
    assert(copy@ =~= v@);
    copy
}

/// Every position of a game played to its end but the last is in progress.
pub proof fn lemma_only_last_is_finished<G: Game>(boards: Seq<G>, i: int)
    requires
        played_by_rules(boards),
        0 <= i < boards.len() - 1,
    ensures
        boards[i].state() == GameState::InProgress,
{
    assert(follows(position_before(boards, i + 1), boards[i + 1]));
}

/// What a learner has learnt: the parameters of its evaluator, and its
/// traces.
pub struct Learnt {
    pub params: Seq<i64>,
    pub trace: Option<Seq<i64>>,
}

/// Some evaluator of the kind `E` that learns and has the parameters
/// `params`. The parameters decide all its values.
pub open spec fn any_with<G: Game, E: Trainable<G>>(params: Seq<i64>) -> E {
    choose|e: E| e.learns() && e.params_of() == params
}

/// The target of a step of the update, for an evaluator with the
/// parameters `params`: the reward of the game, or what the value of the
/// search `depth` plies deep from the named position stands for.
pub open spec fn step_target<G: Game, E: Trainable<G>>(
    params: Seq<i64>,
    game_hist: Seq<(G, bool)>,
    player: Player,
    depth: nat,
    step: TdStep,
) -> Target {
    match step.target {
        TdTarget::Reward(r) => Target::Reward(r),
        TdTarget::Search(next) => target_for(
            negamax_value(any_with::<G, E>(params), game_hist[next as int].0, depth, player) as i64,
        ),
    }
}

/// The traces after they have taken up the gradients of the first `n` of
/// the positions `variants`, at the parameters `params`.
pub open spec fn after_gradients<G: Game, E: Trainable<G>>(
    lambda: i64,
    trace: Option<Seq<i64>>,
    params: Seq<i64>,
    variants: Seq<G>,
    player: Player,
    n: int,
) -> Option<Seq<i64>>
    decreases n,
{
    if n <= 0 {
        trace
    } else {
        decayed(
            lambda,
            after_gradients::<G, E>(lambda, trace, params, variants, player, n - 1),
            E::gradient_with(params, variants[n - 1], player),
        )
    }
}

/// The parameters after they have been changed for the first `n` of the
/// positions `variants`, one after the other: for each by what the traces
/// give for the target and the value that the position has by then.
pub open spec fn after_deltas<G: Game, E: Trainable<G>>(
    rates: Rates,
    trace: Option<Seq<i64>>,
    params: Seq<i64>,
    variants: Seq<G>,
    player: Player,
    target: Target,
    n: int,
) -> Seq<i64>
    decreases n,
{
    if n <= 0 {
        params
    } else {
        let before = after_deltas::<G, E>(rates, trace, params, variants, player, target, n - 1);
        params_after(
            before,
            deltas_of(
                rates,
                trace,
                target,
                E::value_with(before, variants[n - 1], player) as i64,
            ),
        )
    }
}

/// What the learner has learnt after one step of the update: the traces
/// are cleared if the step's position was reached by exploring; they take
/// up the gradient of every symmetric variant of the position; then the
/// parameters are changed for every variant.
pub open spec fn after_step<G: Game, E: Trainable<G>>(
    rates: Rates,
    learnt: Learnt,
    game_hist: Seq<(G, bool)>,
    player: Player,
    depth: nat,
    step: TdStep,
) -> Learnt {
    let target = step_target::<G, E>(learnt.params, game_hist, player, depth, step);
    let start = if step.explored {
        cleared(learnt.trace)
    } else {
        learnt.trace
    };
    let variants = game_hist[step.state as int].0.variants();
    let trace = after_gradients::<G, E>(
        rates.lambda,
        start,
        learnt.params,
        variants,
        player,
        variants.len() as int,
    );
    Learnt {
        params: after_deltas::<G, E>(
            rates,
            trace,
            learnt.params,
            variants,
            player,
            target,
            variants.len() as int,
        ),
        trace,
    }
}

/// What the learner has learnt after the first `n` steps of the update of
/// `player` from a recorded game.
pub open spec fn after_steps<G: Game, E: Trainable<G>>(
    rates: Rates,
    learnt: Learnt,
    game_hist: Seq<(G, bool)>,
    player: Player,
    depth: nat,
    n: int,
) -> Learnt
    decreases n,
{
    if n <= 0 {
        learnt
    } else {
        after_step::<G, E>(
            rates,
            after_steps::<G, E>(rates, learnt, game_hist, player, depth, n - 1),
            game_hist,
            player,
            depth,
            step_of(game_hist, player, n - 1),
        )
    }
}

/// How many steps the update of `player` from a recorded game has: one for
/// every position in which `player` is to move but the last.
pub open spec fn steps_of<G: Game>(game_hist: Seq<(G, bool)>, player: Player) -> int {
    let places = places_to_move(game_hist, player, game_hist.len() as int).len();
    if places == 0 {
        0
    } else {
        places - 1
    }
}

/// What the learner has learnt after the update of `player` from a
/// recorded game.
pub open spec fn updated<G: Game, E: Trainable<G>>(
    rates: Rates,
    learnt: Learnt,
    game_hist: Seq<(G, bool)>,
    player: Player,
    depth: nat,
) -> Learnt {
    after_steps::<G, E>(rates, learnt, game_hist, player, depth, steps_of(game_hist, player))
}

/// An evaluator that learns has, on every position, the values of any
/// evaluator of its kind with its parameters, and so has every search on
/// it.
pub proof fn lemma_search_by_params<G: Game, E: Trainable<G>>(
    e: E,
    board: G,
    depth: nat,
    player: Player,
)
    requires
        e.learns(),
    ensures
        negamax_value(e, board, depth, player) == negamax_value(
            any_with::<G, E>(e.params_of()),
            board,
            depth,
            player,
        ),
{
    let other = any_with::<G, E>(e.params_of());
    assert(other.learns() && other.params_of() == e.params_of());
    assert forall|b: G, p: Player| #[trigger] e.value_of(b, p) == other.value_of(b, p) by {
        e.lemma_params_decide(b, p);
        other.lemma_params_decide(b, p);
    }
    lemma_negamax_by_values(e, other, board, depth, player);
}

/// Moves the values of the positions of a recorded game in which `player`
/// was to move towards what followed them. The steps are those of
/// `plan_update`; a target that is not the reward of the game is searched
/// for `depth` plies deep, with batches from `batch_depth` down. At each
/// step the traces are cleared if the position was reached by exploring;
/// they then take up the gradient of every symmetric variant of the
/// position, and for every variant the parameters are changed by what the
/// traces give for the target and the variant's current value.
pub fn update<G, E, T>(
    evaluator: &mut E,
    traces: &mut T,
    game_hist: &Vec<(G, bool)>,
    player: Player,
    depth: u32,
    batch_depth: u32,
) where G: Game, G::Action: Copy, E: Trainable<G>, T: Traces
    requires
        old(evaluator).learns(),
        old(traces).rates().gradient_unit > 0,
        game_hist@.len() > 0 ==> played_out(positions_of(game_hist@)),
    ensures
        final(evaluator).learns(),
        final(traces).rates() == old(traces).rates(),
        (Learnt { params: final(evaluator).params_of(), trace: final(traces).trace() })
            == updated::<G, E>(
            old(traces).rates(),
            (Learnt { params: old(evaluator).params_of(), trace: old(traces).trace() }),
            game_hist@,
            player,
            depth as nat,
        ),
{
    proof {
        if game_hist@.len() > 0 {
            assert(positions_of(game_hist@).last() == game_hist@.last().0);
        }
    }
    let ghost rates = traces.rates();
    let ghost before = Learnt { params: evaluator.params_of(), trace: traces.trace() };
    let plan = plan_update(game_hist, player);
    let len = game_hist.len();
    let mut k: usize = 0;
    while k < plan.len()
        invariant
            k <= plan@.len(),
            len == game_hist@.len(),
            evaluator.learns(),
            traces.rates() == rates,
            rates.gradient_unit > 0,
            (Learnt { params: evaluator.params_of(), trace: traces.trace() }) == after_steps::<G, E>(
                rates,
                before,
                game_hist@,
                player,
                depth as nat,
                k as int,
            ),
            game_hist@.len() > 0 ==> played_out(positions_of(game_hist@)),
            plan@.len() == steps_of(game_hist@, player),
            forall|i: int|
                0 <= i < plan@.len() ==> #[trigger] plan@[i] == step_of(game_hist@, player, i),
        decreases plan@.len() - k,
    {
        let step = plan[k];
        let ghost states = places_to_move(game_hist@, player, game_hist@.len() as int);
        let ghost learnt = Learnt { params: evaluator.params_of(), trace: traces.trace() };
        proof {
            assert(step == step_of(game_hist@, player, k as int));
            lemma_places_to_move(game_hist@, player, game_hist@.len() as int);
            lemma_places_ascend(game_hist@, player, game_hist@.len() as int, k as int, k + 1);
            assert(step.state == states[k as int]);
            assert(step.state < game_hist@.len() - 1);
            assert(positions_of(game_hist@)[step.state as int] == game_hist@[step.state as int].0);
            lemma_only_last_is_finished(positions_of(game_hist@), step.state as int);
            lemma_played_positions(positions_of(game_hist@), step.state as int);
        }
        let target = match step.target {
            TdTarget::Reward(r) => Target::Reward(r),
            TdTarget::Search(next) => {
                proof {
                    assert(next == states[k + 1]);
                    assert(positions_of(game_hist@)[next as int] == game_hist@[next as int].0);
                    lemma_played_positions(positions_of(game_hist@), next as int);
                    lemma_search_by_params(*evaluator, game_hist@[next as int].0, depth as nat, player);
                }
                let v = abnegamax(&game_hist[next].0, depth, batch_depth, &*evaluator, player, None);
                target_of(v)
            },
        };
        assert(target == step_target::<G, E>(learnt.params, game_hist@, player, depth as nat, step));
        if step.explored {
            traces.reset();
        }
        let ghost start = traces.trace();
        let state = &game_hist[step.state].0;
        let symmetric_states = state.symmetries();
        proof {
            G::lemma_variants(*state);
        }
        let mut i: usize = 0;
        while i < symmetric_states.len()
            invariant
                i <= symmetric_states@.len(),
                evaluator.learns(),
                evaluator.params_of() == learnt.params,
                traces.rates() == rates,
                traces.trace() == after_gradients::<G, E>(
                    rates.lambda,
                    start,
                    learnt.params,
                    symmetric_states@,
                    player,
                    i as int,
                ),
                forall|j: int|
                    0 <= j < symmetric_states@.len() ==> (#[trigger] symmetric_states@[j]).state()
                        == GameState::InProgress,
            decreases symmetric_states@.len() - i,
        {
            proof {
                evaluator.lemma_params_decide(symmetric_states@[i as int], player);
            }
            let grad = evaluator.gradient(&symmetric_states[i], player);
            traces.decay_and_add(&grad);
            i += 1;
        }
        let ghost trace = traces.trace();
        let mut i: usize = 0;
        while i < symmetric_states.len()
            invariant
                i <= symmetric_states@.len(),
                evaluator.learns(),
                traces.rates() == rates,
                rates.gradient_unit > 0,
                traces.trace() == trace,
                evaluator.params_of() == after_deltas::<G, E>(
                    rates,
                    trace,
                    learnt.params,
                    symmetric_states@,
                    player,
                    target,
                    i as int,
                ),
            decreases symmetric_states@.len() - i,
        {
            proof {
                evaluator.lemma_params_decide(symmetric_states@[i as int], player);
                evaluator.lemma_value_of(symmetric_states@[i as int], player);
            }
            let current_av = evaluator.value(&symmetric_states[i], player);
            let deltas = traces.deltas(target, current_av);
            evaluator.apply_update(deltas.as_slice());
            i += 1;
        }
        k += 1;
    }
}

/// The places to move come in ascending order.
pub proof fn lemma_places_ascend<G: Game>(
    game_hist: Seq<(G, bool)>,
    player: Player,
    n: int,
    i: int,
    j: int,
)
    requires
        0 <= n <= game_hist.len(),
        n <= usize::MAX,
        0 <= i < j < places_to_move(game_hist, player, n).len(),
    ensures
        places_to_move(game_hist, player, n)[i] < places_to_move(game_hist, player, n)[j],
    decreases n,
{
    lemma_places_to_move(game_hist, player, n);
    if n > 0 {
        let prev = places_to_move(game_hist, player, n - 1);
        lemma_places_to_move(game_hist, player, n - 1);
        if j < prev.len() {
            lemma_places_ascend(game_hist, player, n - 1, i, j);
        }
    }
}

/// A learner: an evaluator that learns from the games it plays.
pub trait RL<G: Game, E> {
    /// Whether the learner is set up so that it can play and learn.
    spec fn ready(&self) -> bool;

    /// The results of the games against opponents that the learner has
    /// kept: 1 for a win, -1 for a loss, 0 for a draw.
    spec fn results(&self) -> Seq<i8>;

    /// Update all states in `game_hist` in which `player` is to move.
    /// `game_hist` is all visited positions, each with the mark whether the
    /// agent chose to explore on the way to it.
    fn update(&mut self, game_hist: &Vec<(G, bool)>, player: Player)
        requires
            old(self).ready(),
            game_hist@.len() > 0 ==> played_out(positions_of(game_hist@)),
        ensures
            final(self).ready(),
            final(self).results() == old(self).results(),
    ;

    /// Learns from playing against itself.
    fn self_play(&mut self)
        requires
            old(self).ready(),
        ensures
            final(self).ready(),
            final(self).results() == old(self).results(),
    ;

    /// Learns from playing against an opponent.
    fn play_against<A: Agent<G> + ?Sized>(&mut self, opponent: &A)
        requires
            old(self).ready(),
            opponent.ready(),
        ensures
            final(self).ready(),
    ;

    /// The evaluator that learns.
    fn get_evaluator<'a>(&'a self) -> &'a E;

    /// How deep the learner searches while it learns.
    fn get_depth(&self) -> u32;

    /// The results of the games against opponents, if the learner hands
    /// them out: 1 for a win, -1 for a loss, 0 for a draw.
    fn scores(&self) -> (s: Option<&Vec<i8>>)
        ensures
            match s {
                Some(list) => list@ == self.results(),
                None => true,
            },
    {
        None
    }
}

/// Temporal-difference learning with eligibility traces: the learner plays
/// with a search on its evaluator and moves the values of the visited
/// positions towards what the search finds later in the game.
pub struct QLearning<E, P, T> {
    pub evaluator: E,
    pub exploration_policy: P,
    /// Depth to search during training.
    pub depth: u32,
    /// The results of the games against opponents. Useful when measuring
    /// how well the learner does.
    pub scores: Vec<i8>,
    /// The eligibility traces, with step size, discount and decay.
    pub traces: T,
}

impl<E, P, T> QLearning<E, P, T> {
    /// A learner that searches 4 plies deep.
    pub fn new(evaluator: E, exploration_policy: P, traces: T) -> (learner: Self)
        ensures
            learner.evaluator == evaluator,
            learner.exploration_policy == exploration_policy,
            learner.traces == traces,
            learner.depth == 4,
            learner.scores@.len() == 0,
    {
        QLearning { evaluator, exploration_policy, depth: 4, scores: Vec::new(), traces }
    }

    /// The policy with which the learner explores.
    pub fn get_policy<'a>(&'a self) -> (p: &'a P)
        ensures
            *p == self.exploration_policy,
    {
        &self.exploration_policy
    }
}

impl<E, P, T: Traces> QLearning<E, P, T> {
    /// What the learner has learnt: the parameters of its evaluator, and
    /// its traces.
    pub open spec fn learnt<G: Game>(&self) -> Learnt where E: Trainable<G> {
        Learnt { params: self.evaluator.params_of(), trace: self.traces.trace() }
    }
}

impl<G, E, P, T> RL<G, E> for QLearning<E, P, T> where
    G: Game,
    G::Action: Copy,
    E: Trainable<G>,
    P: Policy,
    T: Traces,
 {
    open spec fn ready(&self) -> bool {
        self.depth >= 1 && self.evaluator.learns() && self.traces.rates().gradient_unit > 0
    }

    open spec fn results(&self) -> Seq<i8> {
        self.scores@
    }

    fn update(&mut self, game_hist: &Vec<(G, bool)>, player: Player)
        ensures
            final(self).depth == old(self).depth,
            final(self).traces.rates() == old(self).traces.rates(),
            final(self).learnt::<G>() == updated::<G, E>(
                old(self).traces.rates(),
                old(self).learnt::<G>(),
                game_hist@,
                player,
                old(self).depth as nat,
            ),
    {
        update(&mut self.evaluator, &mut self.traces, game_hist, player, self.depth, self.depth);
    }

    fn self_play(&mut self)
        ensures
            final(self).depth == old(self).depth,
            final(self).traces.rates() == old(self).traces.rates(),
            exists|game_hist: Seq<(G, bool)>|
                played_out(positions_of(game_hist)) && final(self).learnt::<G>() == updated::<G, E>(
                    old(self).traces.rates(),
                    #[trigger] updated::<G, E>(
                        old(self).traces.rates(),
                        old(self).learnt::<G>(),
                        game_hist,
                        Player::Red,
                        old(self).depth as nat,
                    ),
                    game_hist,
                    Player::Yellow,
                    old(self).depth as nat,
                ),
    {
        let agenta = MinimaxPolicyAgent::new(&self.evaluator, &self.exploration_policy, self.depth);
        let agentb = MinimaxPolicyAgent::new(&self.evaluator, &self.exploration_policy, self.depth);
        let game_hist: Vec<(G, bool)> = episode(&agenta, &agentb);
        update(
            &mut self.evaluator,
            &mut self.traces,
            &game_hist,
            Player::Red,
            self.depth,
            self.depth,
        );
        update(
            &mut self.evaluator,
            &mut self.traces,
            &game_hist,
            Player::Yellow,
            self.depth,
            self.depth,
        );
    }

    fn play_against<A: Agent<G> + ?Sized>(&mut self, opponent: &A)
        ensures
            final(self).depth == old(self).depth,
            final(self).traces.rates() == old(self).traces.rates(),
            exists|game_hist: Seq<(G, bool)>, side: Player|
                played_out(positions_of(game_hist)) && final(self).scores@ == old(self).scores@.push(
                    reward_of(game_hist.last().0.state(), side),
                ) && final(self).learnt::<G>() == #[trigger] updated::<G, E>(
                    old(self).traces.rates(),
                    old(self).learnt::<G>(),
                    game_hist,
                    side,
                    old(self).depth as nat,
                ),
    {
        let agent = BatchMinimaxAgent::new(&self.evaluator, self.depth, self.depth);
        let red = random_bool();
        let game_hist: Vec<(G, bool)> = if red {
            episode(&agent, opponent)
        } else {
            episode(opponent, &agent)
        };
        let selfp = if red {
            Player::Red
        } else {
            Player::Yellow
        };
        let end_state = game_hist[game_hist.len() - 1].0.game_state();
        proof {
            assert(positions_of(game_hist@).last() == game_hist@.last().0);
        }
        self.scores.push(reward(end_state, selfp));
        update(&mut self.evaluator, &mut self.traces, &game_hist, selfp, self.depth, self.depth);
    }

    fn get_evaluator<'a>(&'a self) -> (e: &'a E)
        ensures
            *e == self.evaluator,
    {
        &self.evaluator
    }

    fn get_depth(&self) -> (d: u32)
        ensures
            d == self.depth,
    {
        self.depth
    }

    fn scores(&self) -> (s: Option<&Vec<i8>>)
        ensures
            s == Some(&self.scores),
    {
        Some(&self.scores)
    }
}

} // verus!
