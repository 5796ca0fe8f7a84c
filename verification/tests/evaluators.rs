use gamesolver::evaluators::consequtive::{
    feature_counts, feature_counts_stack4, pieces_in_row, pieces_in_row_stack4, saturate,
    saturated, weigh, FEATURE_UNIT,
};
use gamesolver::evaluators::{
    Connect4Evaluators, ConsequtiveEval, Evaluator, LinesEval, SimpleEval, Stack4Evaluators,
    Trainable, INFINITY,
};
use gamesolver::games::connect4::Connect4;
use gamesolver::games::stack4::Stack4;
use gamesolver::games::{Game, GameState, Player, TileStates};

fn position(moves: &[usize]) -> Connect4 {
    let mut board = Connect4::new();
    for mv in moves {
        board.play_action(*mv);
    }
    board
}

#[test]
fn simple_eval_knows_outcomes_only() {
    let evaluator = SimpleEval::new();
    let board = Connect4::new();
    assert_eq!(evaluator.value(&board, Player::Red), 0);
    let midgame = position(&[3, 3, 4, 4, 5]);
    assert_eq!(evaluator.value(&midgame, Player::Red), 0);
    assert_eq!(evaluator.value(&midgame, Player::Yellow), 0);
    let won = position(&[3, 3, 4, 4, 5, 5, 6]);
    assert_eq!(won.game_state(), GameState::Won(Player::Red));
    assert_eq!(evaluator.value(&won, Player::Red), INFINITY);
    assert_eq!(evaluator.value(&won, Player::Yellow), -INFINITY);
    assert_eq!(INFINITY, i64::MAX);
    let mut drawn = Connect4::new();
    drawn.game_state = GameState::Draw;
    assert_eq!(evaluator.value(&drawn, Player::Red), 0);
    let stack = Stack4::new();
    assert_eq!(evaluator.value(&stack, Player::Yellow), 0);
}

#[test]
fn values_are_the_values_one_by_one() {
    let evaluator = LinesEval::new();
    let boards = vec![
        Connect4::new(),
        position(&[3]),
        position(&[0, 1, 0, 1, 0, 1]),
        position(&[3, 3, 4, 4, 5, 5, 6]),
    ];
    let together = evaluator.values(&boards, Player::Red);
    assert_eq!(together.len(), 4);
    for (i, board) in boards.iter().enumerate() {
        assert_eq!(together[i], evaluator.value(board, Player::Red));
    }
    assert_eq!(together, vec![0, 18, 24, INFINITY]);
}

#[test]
fn line_value_counts_own_pieces_clear_of_the_opponent() {
    let evaluator = LinesEval::new();
    let e = TileStates::Empty;
    let r = TileStates::Full(Player::Red);
    let y = TileStates::Full(Player::Yellow);
    assert_eq!(evaluator.line_value(&vec![r, r, e, r, y, e, r], Player::Red), 3);
    assert_eq!(evaluator.line_value(&vec![e, e, e, r, r, r, r], Player::Red), 10);
    assert_eq!(evaluator.line_value(&vec![y, r, r, r, r, r, r], Player::Red), 15);
    assert_eq!(evaluator.line_value(&vec![r, e, e, e], Player::Red), 1);
    assert_eq!(evaluator.line_value(&vec![r, e, e, e, e], Player::Red), 2);
    assert_eq!(evaluator.line_value(&vec![r, e, e, e, e], Player::Yellow), 0);
    assert_eq!(evaluator.line_value(&vec![], Player::Red), 0);
    assert_eq!(TileStates::from_code(0), e);
    assert_eq!(TileStates::from_code(1), r);
    assert_eq!(TileStates::from_code(2), y);
}

#[test]
fn lines_eval_on_positions() {
    let evaluator = LinesEval::new();
    assert_eq!(evaluator.lines_evaluation(&Connect4::new(), Player::Red), 0);
    let one = position(&[3]);
    assert_eq!(evaluator.lines_evaluation(&one, Player::Red), 18);
    assert_eq!(evaluator.lines_evaluation(&one, Player::Yellow), 0);
    let columns = position(&[0, 1, 0, 1, 0, 1]);
    assert_eq!(evaluator.value(&columns, Player::Red), 24);
    assert_eq!(evaluator.value(&columns, Player::Yellow), 32);
    let late = position(&[4, 5, 3, 1, 3, 1, 1, 1, 4, 5, 5, 1, 4, 4, 2, 5]);
    assert_eq!(evaluator.value(&late, Player::Red), 23);
    assert_eq!(evaluator.value(&late, Player::Yellow), 26);
    let won = position(&[1, 2, 2, 3, 2, 4, 2, 5]);
    assert_eq!(evaluator.value(&won, Player::Yellow), INFINITY);
    assert_eq!(evaluator.value(&won, Player::Red), -INFINITY);
}

#[test]
fn pieces_in_row_counts_up_to_the_first_other_cell() {
    let board = position(&[0, 6, 1, 6, 2]);
    assert_eq!(pieces_in_row(&board, [3, 0], [-1, 0], Player::Red), 3);
    assert_eq!(pieces_in_row(&board, [3, 0], [1, 0], Player::Red), 0);
    assert_eq!(pieces_in_row(&board, [3, 0], [-1, 0], Player::Yellow), 0);
    assert_eq!(pieces_in_row(&board, [6, 2], [0, -1], Player::Yellow), 2);
    assert_eq!(pieces_in_row(&board, [6, 2], [0, 1], Player::Yellow), 0);
    assert_eq!(pieces_in_row(&board, [0, 0], [-1, 0], Player::Red), 0);
    let mut stack = Stack4::new();
    for a in [(0, 0), (7, 7), (1, 1), (7, 6), (2, 2)] {
        stack.play_action(a);
    }
    assert_eq!(pieces_in_row_stack4(&stack, [3, 3], [-1, -1], Player::Red), 3);
    assert_eq!(pieces_in_row_stack4(&stack, [7, 5], [0, 1], Player::Yellow), 2);
    assert_eq!(pieces_in_row_stack4(&stack, [7, 5], [0, 1], Player::Red), 0);
}

#[test]
fn features_count_the_empty_cells_next_to_pieces() {
    assert_eq!(feature_counts(&Connect4::new(), Player::Red), vec![0, 0, 0, 0, 0, 0]);
    let one = position(&[3]);
    assert_eq!(feature_counts(&one, Player::Red), vec![5, 0, 0, 0, 0, 0]);
    assert_eq!(feature_counts(&one, Player::Yellow), vec![0, 0, 0, 5, 0, 0]);
    let columns = position(&[0, 1, 0, 1, 0, 1]);
    assert_eq!(feature_counts(&columns, Player::Red), vec![1, 0, 1, 5, 0, 1]);
    let late = position(&[4, 5, 3, 1, 3, 1, 1, 1, 4, 5, 5, 1, 4, 4, 2, 5]);
    assert_eq!(late.game_state(), GameState::InProgress);
    assert_eq!(late.cur_player(), Player::Red);
    assert_eq!(feature_counts(&late, Player::Red), vec![9, 4, 1, 19, 3, 0]);
    assert_eq!(feature_counts(&late, Player::Yellow), vec![19, 3, 0, 9, 4, 1]);
}

#[test]
fn features_of_the_second_game() {
    assert_eq!(feature_counts_stack4(&Stack4::new(), Player::Red), vec![0, 0, 0, 0, 0, 0]);
    let mut stack = Stack4::new();
    for a in [(3, 0), (3, 1), (0, 4), (7, 2), (1, 4)] {
        stack.play_action(a);
    }
    assert_eq!(feature_counts_stack4(&stack, Player::Red), vec![10, 1, 0, 12, 0, 0]);
    assert_eq!(feature_counts_stack4(&stack, Player::Yellow), vec![12, 0, 0, 10, 1, 0]);
}

#[test]
fn saturation_follows_the_exponential() {
    assert_eq!(FEATURE_UNIT, 1024);
    for n in 0..=64u32 {
        let exact = 10.0 * (1.0 - (-(n as f64) / 10.0).exp());
        assert_eq!(saturated(n), (exact * 1024.0).round() as i64);
    }
    assert_eq!(saturated(0), 0);
    assert_eq!(saturated(1), 974);
    assert_eq!(saturated(10), 6473);
    assert_eq!(saturated(64), 10223);
    assert_eq!(saturated(65), 10223);
    assert_eq!(saturated(u32::MAX), 10223);
    assert_eq!(saturate(&vec![9, 4, 1, 19, 3, 0]), vec![6077, 3376, 974, 8708, 2654, 0]);
}

#[test]
fn weighing_is_a_dot_product_that_stays_finite() {
    assert_eq!(weigh(&vec![2, -3, 5], &vec![10, 20, 30]), 2 * 10 - 3 * 20 + 5 * 30);
    // The shorter of the two decides how many products there are.
    assert_eq!(weigh(&vec![2, -3, 5, 7], &vec![10, 20]), 2 * 10 - 3 * 20);
    assert_eq!(weigh(&vec![2], &vec![10, 20]), 20);
    assert_eq!(weigh(&vec![], &vec![10, 20]), 0);
    assert_eq!(weigh(&vec![i64::MAX, i64::MAX], &vec![10223, 10223]), INFINITY - 1);
    assert_eq!(weigh(&vec![i64::MIN, i64::MIN], &vec![10223, 10223]), -INFINITY + 1);
    assert_eq!(weigh(&vec![i64::MAX, i64::MIN + 1], &vec![5, 5]), 0);
}

#[test]
fn feature_evaluator_with_zero_weights() {
    let evaluator = ConsequtiveEval::new();
    assert_eq!(evaluator.params, vec![0, 0, 0, 0, 0, 0]);
    let late = position(&[4, 5, 3, 1, 3, 1, 1, 1, 4, 5, 5, 1, 4, 4, 2, 5]);
    assert_eq!(evaluator.value(&late, Player::Red), 0);
    assert_eq!(evaluator.value(&late, Player::Yellow), 0);
    // With all values equal every legal column is a best action.
    let legal = late.legal_actions();
    for _ in 0..20 {
        let action = gamesolver::search::abnegamax_best_action(&late, 2, &evaluator, Player::Red);
        assert!(legal.contains(&action));
    }
}

#[test]
fn feature_evaluator_value_and_gradient() {
    let mut evaluator = ConsequtiveEval::new();
    evaluator.params = vec![3, 0, -2, 1, 0, 0];
    let late = position(&[4, 5, 3, 1, 3, 1, 1, 1, 4, 5, 5, 1, 4, 4, 2, 5]);
    let features = evaluator.features(&late, Player::Red);
    assert_eq!(features, vec![6077, 3376, 974, 8708, 2654, 0]);
    assert_eq!(Trainable::<Connect4>::gradient(&evaluator, &late, Player::Red), features);
    assert_eq!(evaluator.value(&late, Player::Red), 3 * 6077 - 2 * 974 + 8708);
    let won = position(&[1, 2, 2, 3, 2, 4, 2, 5]);
    assert_eq!(evaluator.value(&won, Player::Yellow), INFINITY);
    assert_eq!(evaluator.value(&won, Player::Red), -INFINITY);
    let mut stack = Stack4::new();
    for a in [(3, 0), (3, 1), (0, 4), (7, 2), (1, 4)] {
        stack.play_action(a);
    }
    assert_eq!(evaluator.features_stack4(&stack, Player::Red), vec![6473, 974, 0, 7156, 0, 0]);
    assert_eq!(evaluator.value(&stack, Player::Red), 3 * 6473 + 7156);
    assert_eq!(Trainable::<Stack4>::gradient(&evaluator, &stack, Player::Yellow), vec![7156, 0, 0, 6473, 974, 0]);
}

#[test]
fn updates_are_added_to_the_parameters() {
    let mut evaluator = ConsequtiveEval::new();
    Trainable::<Connect4>::apply_update(&mut evaluator, &[1, -2, 3, 0, 5, -6]);
    assert_eq!(Trainable::<Connect4>::get_params(&evaluator), vec![1, -2, 3, 0, 5, -6]);
    Trainable::<Connect4>::apply_update(&mut evaluator, &[10, 10]);
    assert_eq!(evaluator.params, vec![11, 8, 3, 0, 5, -6]);
    Trainable::<Stack4>::apply_update(&mut evaluator, &[i64::MAX, i64::MIN, 0, 0, 0, 0, 99]);
    assert_eq!(evaluator.params, vec![i64::MAX, i64::MIN + 8, 3, 0, 5, -6]);
    Trainable::<Stack4>::apply_update(&mut evaluator, &[1, -9]);
    assert_eq!(evaluator.params, vec![i64::MAX, i64::MIN, 3, 0, 5, -6]);
    let copy = evaluator.clone();
    assert_eq!(copy.params, evaluator.params);
    assert!(Trainable::<Connect4>::can_learn(&evaluator));
}

#[test]
fn evaluators_behind_one_type() {
    let late = position(&[4, 5, 3, 1, 3, 1, 1, 1, 4, 5, 5, 1, 4, 4, 2, 5]);
    let simple = Connect4Evaluators::Simple(SimpleEval::new());
    let lines = Connect4Evaluators::Lines(LinesEval::new());
    let mut cons = ConsequtiveEval::new();
    cons.params = vec![1, 1, 1, 0, 0, 0];
    let mut weighed = Connect4Evaluators::Consequtive(cons);
    assert_eq!(simple.value(&late, Player::Red), 0);
    assert_eq!(lines.value(&late, Player::Red), 23);
    assert_eq!(weighed.value(&late, Player::Red), 6077 + 3376 + 974);
    assert_eq!(lines.values(&vec![late, Connect4::new()], Player::Yellow), vec![26, 0]);
    assert!(!simple.can_learn());
    assert!(!lines.can_learn());
    assert!(weighed.can_learn());
    assert_eq!(weighed.gradient(&late, Player::Red), vec![6077, 3376, 974, 8708, 2654, 0]);
    weighed.apply_update(&[1, 2, 3]);
    assert_eq!(weighed.get_params(), vec![2, 3, 4, 0, 0, 0]);
    let stack = Stack4::new();
    let simple = Stack4Evaluators::Simple(SimpleEval::new());
    let weighed = Stack4Evaluators::Consequtive(ConsequtiveEval::new());
    assert_eq!(simple.value(&stack, Player::Red), 0);
    assert_eq!(weighed.value(&stack, Player::Red), 0);
    assert!(!simple.can_learn());
    assert!(weighed.can_learn());
    assert_eq!(weighed.get_params(), vec![0, 0, 0, 0, 0, 0]);
}
