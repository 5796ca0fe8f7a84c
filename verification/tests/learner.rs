use gamesolver::agents::MinimaxAgent;
use gamesolver::evaluators::{
    Connect4Evaluators, ConsequtiveEval, Evaluator, SimpleEval, Trainable, INFINITY,
};
use gamesolver::games::connect4::Connect4;
use gamesolver::games::{Game, GameState, Player};
use gamesolver::policies::Greedy;
use gamesolver::qlearning::{
    delta, scale, target_of, update, QLearning, Rates, Target, TdTraces, Traces, RATE_UNIT, RL,
};

fn recorded(moves: &[usize], explored: &[usize]) -> Vec<(Connect4, bool)> {
    let mut board = Connect4::new();
    let mut hist = Vec::new();
    for (i, mv) in moves.iter().enumerate() {
        board.play_action(*mv);
        hist.push((board, explored.contains(&i)));
    }
    hist
}

/// Rates with which a change is the trace times the error: step size 1,
/// no discount, and units of 1.
fn plain() -> TdTraces {
    TdTraces::new(RATE_UNIT, 1, 1)
}

#[test]
fn targets() {
    assert_eq!(target_of(INFINITY), Target::Reward(1));
    assert_eq!(target_of(-INFINITY), Target::Reward(-1));
    assert_eq!(target_of(0), Target::Value(0));
    assert_eq!(target_of(-17), Target::Value(-17));
}

#[test]
fn products_in_units() {
    assert_eq!(RATE_UNIT, 1 << 20);
    assert_eq!(scale(3, 5, 2), 7);
    assert_eq!(scale(-3, 5, 2), -7);
    assert_eq!(scale(3, -5, 2), -7);
    assert_eq!(scale(-3, -5, 2), 7);
    assert_eq!(scale(7, RATE_UNIT / 2, RATE_UNIT), 3);
    assert_eq!(scale(-7, RATE_UNIT / 2, RATE_UNIT), -3);
    assert_eq!(scale(1000, RATE_UNIT, RATE_UNIT), 1000);
    assert_eq!(scale(0, i64::MIN, 1), 0);
    assert_eq!(scale(i64::MAX, i64::MAX, 1), i64::MAX);
    assert_eq!(scale(i64::MIN, i64::MAX, 1), i64::MIN);
    assert_eq!(scale(i64::MIN, i64::MIN, 1), i64::MAX);
    assert_eq!(scale(i64::MIN, -1, 1), i64::MAX);
    assert_eq!(scale(i64::MAX, i64::MAX, i64::MAX), i64::MAX);
}

#[test]
fn the_change_of_a_parameter() {
    // Trace 2.0, target one won game, current value 0.25, step size 0.5,
    // discount 0.5, with 1000 steps to the value and 10 to the gradient.
    let rates = Rates {
        step_size: RATE_UNIT / 2,
        discount: RATE_UNIT / 2,
        lambda: 0,
        value_unit: 1000,
        gradient_unit: 10,
    };
    // error = 0.5 * 1000 - 250 = 250; 20 * 250 / 10 = 500; * 0.5 = 250; / 10 = 25.
    assert_eq!(delta(&rates, 20, Target::Reward(1), 250), 25);
    // A lost game: error = -500 - 250 = -750; 20 * -750 / 10 = -1500; -750; -75.
    assert_eq!(delta(&rates, 20, Target::Reward(-1), 250), -75);
    // An estimate is taken as it is: error = 0.5 * 600 - 250 = 50; 100; 50; 5.
    assert_eq!(delta(&rates, 20, Target::Value(600), 250), 5);
    assert_eq!(delta(&rates, 0, Target::Reward(1), 250), 0);
    assert_eq!(delta(&rates, 20, Target::Reward(0), 0), 0);
    // Rounding is towards zero on both sides.
    assert_eq!(delta(&rates, 1, Target::Value(38), 0), 0);
    assert_eq!(delta(&rates, -1, Target::Value(38), 0), 0);
    assert_eq!(delta(&rates, 3, Target::Value(140), 0), 1);
    assert_eq!(delta(&rates, -3, Target::Value(140), 0), -1);
}

#[test]
fn traces_decay_and_take_up_gradients() {
    let mut traces = TdTraces::new(RATE_UNIT, 1, 1);
    traces.rates.lambda = RATE_UNIT / 2;
    assert_eq!(traces.eligibilty_trace, None);
    assert_eq!(traces.deltas(Target::Reward(1), 0), Vec::<i64>::new());
    traces.reset();
    assert_eq!(traces.eligibilty_trace, None);
    traces.decay_and_add(&vec![8, -4, 1]);
    assert_eq!(traces.eligibilty_trace, Some(vec![8, -4, 1]));
    traces.decay_and_add(&vec![1, 1, 1]);
    assert_eq!(traces.eligibilty_trace, Some(vec![5, -1, 1]));
    // A shorter gradient leaves the traces beyond it as they are.
    traces.decay_and_add(&vec![10]);
    assert_eq!(traces.eligibilty_trace, Some(vec![12, -1, 1]));
    // A longer one is read as far as the traces reach.
    traces.decay_and_add(&vec![0, 0, 0, 99]);
    assert_eq!(traces.eligibilty_trace, Some(vec![6, 0, 0]));
    assert_eq!(traces.deltas(Target::Reward(1), 0), vec![6, 0, 0]);
    assert_eq!(traces.deltas(Target::Reward(-1), 1), vec![-12, 0, 0]);
    traces.decay_and_add(&vec![i64::MAX, i64::MIN, 0]);
    assert_eq!(traces.eligibilty_trace, Some(vec![i64::MAX, i64::MIN, 0]));
    traces.reset();
    assert_eq!(traces.eligibilty_trace, Some(vec![0, 0, 0]));
    assert_eq!(traces.rates.lambda, RATE_UNIT / 2);
    assert_eq!(traces.rates.step_size, RATE_UNIT);
    assert_eq!(traces.rates.discount, RATE_UNIT);
}

#[test]
fn update_moves_the_parameters_towards_the_reward() {
    // Red wins with the seventh move. Red learns from the positions at the
    // places 1 and 3: at place 1 towards what a search one ply deep finds
    // from place 3, which is nothing, at place 3 towards the won game.
    let hist = recorded(&[0, 1, 0, 1, 0, 1, 0], &[]);
    let mut evaluator = ConsequtiveEval::new();
    let mut traces = plain();
    update(&mut evaluator, &mut traces, &hist, Player::Red, 1, 0);
    let board = hist[3].0;
    let mirror = board.symmetry();
    // Without decay the traces are the gradient of the variant that came
    // last, the mirror image.
    let f = evaluator.features(&mirror, Player::Red);
    assert_eq!(traces.eligibilty_trace, Some(f.clone()));
    // For the board itself the value was 0 and the error 1: the parameters
    // became the traces. For the mirror image the value was then the sum of
    // the squares, and the parameters changed by the traces times the error.
    let squares: i64 = f.iter().map(|x| x * x).sum();
    let expected: Vec<i64> = f.iter().map(|x| x + x * (1 - squares)).collect();
    assert_eq!(evaluator.params, expected);
    assert_ne!(evaluator.params, vec![0, 0, 0, 0, 0, 0]);
}

#[test]
fn update_clears_the_traces_after_exploring() {
    let mut kept = plain();
    kept.rates.lambda = RATE_UNIT;
    kept.rates.step_size = 0;
    let mut cleared = plain();
    cleared.rates.lambda = RATE_UNIT;
    cleared.rates.step_size = 0;
    let mut evaluator = ConsequtiveEval::new();
    let calm = recorded(&[0, 1, 0, 1, 0, 1, 0], &[]);
    let explored = recorded(&[0, 1, 0, 1, 0, 1, 0], &[3]);
    update(&mut evaluator, &mut kept, &calm, Player::Red, 1, 0);
    update(&mut evaluator, &mut cleared, &explored, Player::Red, 1, 0);
    assert_eq!(evaluator.params, vec![0, 0, 0, 0, 0, 0]);
    // Without decay of the traces they add up over both steps; with the
    // position at place 3 reached by exploring, only its own gradients stay.
    let first = calm[1].0;
    let second = calm[3].0;
    let sum = |boards: &[Connect4]| -> Vec<i64> {
        let mut total = vec![0i64; 6];
        for b in boards {
            for (t, g) in total.iter_mut().zip(evaluator.features(b, Player::Red)) {
                *t += g;
            }
        }
        total
    };
    assert_eq!(
        kept.eligibilty_trace,
        Some(sum(&[first, first.symmetry(), second, second.symmetry()]))
    );
    assert_eq!(cleared.eligibilty_trace, Some(sum(&[second, second.symmetry()])));
}

#[test]
fn update_searches_for_its_targets() {
    // Yellow wins with the eighth move. Red's position at place 5 is one
    // move from a win: for the step at place 3 the search finds the win and
    // the target is its reward; the step at place 5 goes towards the loss.
    let hist = recorded(&[0, 1, 0, 1, 0, 1, 6, 1], &[]);
    assert_eq!(hist[7].0.game_state(), GameState::Won(Player::Yellow));
    let mut evaluator = ConsequtiveEval::new();
    let mut traces = plain();
    // Step size 0 keeps the parameters at 0, so that every value is 0.
    traces.rates.step_size = 0;
    update(&mut evaluator, &mut traces, &hist, Player::Red, 1, 0);
    assert_eq!(evaluator.params, vec![0, 0, 0, 0, 0, 0]);
    let last = hist[5].0.symmetry();
    assert_eq!(traces.eligibilty_trace, Some(evaluator.features(&last, Player::Red)));
    assert_eq!(traces.deltas(Target::Reward(1), 0), vec![0, 0, 0, 0, 0, 0]);
    // With step size 1 the changes at place 3 are the traces times 1, and
    // they come first: the parameters are no longer 0 when place 5 is due.
    let mut evaluator = ConsequtiveEval::new();
    let mut traces = plain();
    update(&mut evaluator, &mut traces, &recorded(&[0, 1, 0, 1, 0, 1, 6, 1], &[]), Player::Red, 1, 0);
    assert_ne!(evaluator.params, vec![0, 0, 0, 0, 0, 0]);
}

#[test]
fn update_of_an_empty_record_changes_nothing() {
    let hist: Vec<(Connect4, bool)> = Vec::new();
    let mut evaluator = ConsequtiveEval::new();
    let mut traces = plain();
    update(&mut evaluator, &mut traces, &hist, Player::Red, 2, 0);
    assert_eq!(evaluator.params, vec![0, 0, 0, 0, 0, 0]);
    assert_eq!(traces.eligibilty_trace, None);
}

#[test]
fn a_learner_plays_and_learns() {
    let evaluator = Connect4Evaluators::Consequtive(ConsequtiveEval::new());
    let mut learner = QLearning::new(evaluator, Greedy::new(), TdTraces::new(RATE_UNIT / 1024, 1 << 20, 1024));
    assert_eq!(learner.depth, 4);
    learner.depth = 1;
    assert_eq!(RL::<Connect4, _>::get_depth(&learner), 1);
    assert_eq!(learner.traces.eligibilty_trace, None);
    RL::<Connect4, _>::self_play(&mut learner);
    assert_eq!(learner.traces.eligibilty_trace.as_ref().map(|t| t.len()), Some(6));
    let params = learner.evaluator.get_params();
    assert_eq!(params.len(), 6);
    assert_eq!(RL::<Connect4, _>::scores(&learner), Some(&vec![]));
    let simple = SimpleEval::new();
    let opponent = MinimaxAgent::new(&simple, 1);
    RL::<Connect4, _>::play_against(&mut learner, &opponent);
    RL::<Connect4, _>::play_against(&mut learner, &opponent);
    let scores = RL::<Connect4, _>::scores(&learner).unwrap();
    assert_eq!(scores.len(), 2);
    assert_eq!(*scores, learner.scores);
    for s in scores {
        assert!(*s >= -1 && *s <= 1);
    }
    let again = RL::<Connect4, _>::get_evaluator(&learner);
    assert!(again.can_learn());
    let board = Connect4::new();
    assert_eq!(board.game_state(), GameState::InProgress);
    assert_eq!(learner.evaluator.value(&board, Player::Red), 0);
}

#[test]
fn the_learner_updates_as_the_update_does() {
    let hist = recorded(&[0, 1, 0, 1, 0, 1, 0], &[]);
    let mut learner = QLearning::new(ConsequtiveEval::new(), Greedy::new(), plain());
    learner.depth = 1;
    RL::<Connect4, _>::update(&mut learner, &hist, Player::Red);
    let mut evaluator = ConsequtiveEval::new();
    let mut traces = plain();
    update(&mut evaluator, &mut traces, &hist, Player::Red, 1, 1);
    assert_eq!(learner.evaluator.params, evaluator.params);
    assert_eq!(learner.traces.eligibilty_trace, traces.eligibilty_trace);
    assert_eq!(learner.scores, Vec::<i8>::new());
}
