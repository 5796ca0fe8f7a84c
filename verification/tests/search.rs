use gamesolver::evaluators::{Evaluator, SimpleEval, INFINITY};
use gamesolver::games::connect4::Connect4;
use gamesolver::games::stack4::Stack4;
use gamesolver::games::{Game, GameState, Player};
use gamesolver::minimax::{minimax, minimax_action};
use gamesolver::search::{
    abnegamax, abnegamax_best_action, batch_abnegamax_best_action, batch_negamax,
    batch_negamax_best_action, hash, leafs, negamax, reply_values, Bound, TranspositionTable,
    MULTIPLIER, TABLE_SIZE,
};

#[test]
fn transposition_table() {
    let mut tt: TranspositionTable<f64> = TranspositionTable::new();
    let mut board = Connect4::new();
    board.play_action(4);
    board.play_action(5);
    tt.set(board.uid(), 1.0);
    assert_eq!(tt.get(board.uid()), Some(1.0));
}

#[test]
fn transposition_table_rechecks_the_key() {
    let mut tt: TranspositionTable<i64> = TranspositionTable::new();
    assert_eq!(tt.table.len(), TABLE_SIZE);
    assert_eq!(tt.get(7), None);
    tt.set(7, 40);
    assert_eq!(tt.get(7), Some(40));
    // Another key of the same slot takes the slot over.
    let other = 7 + TABLE_SIZE as u128;
    assert_eq!(hash(other), hash(7));
    assert_eq!(tt.get(other), None);
    tt.set(other, 50);
    assert_eq!(tt.get(other), Some(50));
    assert_eq!(tt.get(7), None);
}

#[test]
fn hash_is_the_product_modulo_the_table_size() {
    assert_eq!(hash(0), 0);
    assert_eq!(hash(1), MULTIPLIER);
    assert_eq!(hash(3), (3 * 48619) % 104723);
    assert_eq!(hash(1 << 100), ((1u128 << 100) % 104723 * 48619 % 104723) as usize);
    let big = u128::MAX;
    // (2^128 - 1) * 48619 mod 104723, computed in parts.
    let expected = ((big % 104723) * 48619) % 104723;
    assert_eq!(hash(big), expected as usize);
    assert!(hash(big) < TABLE_SIZE);
}

fn position(moves: &[usize]) -> Connect4 {
    let mut board = Connect4::new();
    for mv in moves {
        board.play_action(*mv);
    }
    board
}

#[test]
fn negamax_of_the_empty_board_is_zero() {
    let mut board = Connect4::new();
    let evaluator = SimpleEval::new();
    assert_eq!(negamax(&mut board, 5, &evaluator, Player::Red), 0);
    assert_eq!(board, Connect4::new());
    assert_eq!(abnegamax(&board, 13, 0, &evaluator, Player::Red, None), 0);
}

#[test]
fn negamax_sees_a_win_in_one() {
    let mut board = position(&[0, 1, 0, 1, 0, 1]);
    let evaluator = SimpleEval::new();
    assert_eq!(negamax(&mut board, 1, &evaluator, Player::Red), INFINITY);
    assert_eq!(negamax(&mut board, 2, &evaluator, Player::Red), INFINITY);
    // The same position from the side that is not to move.
    assert_eq!(negamax(&mut board, 1, &evaluator, Player::Yellow), 0);
    // At depth 0 the evaluator is asked, and it sees no finished game.
    assert_eq!(negamax(&mut board, 0, &evaluator, Player::Red), 0);
    let action = abnegamax_best_action(&board, 2, &evaluator, Player::Red);
    assert_eq!(action, 0);
}

#[test]
fn negamax_sees_a_forced_loss() {
    // Yellow has three in column 1 and three in column 2: Red cannot stop both.
    let mut board = position(&[0, 1, 0, 1, 6, 1, 6, 2, 5, 2, 5, 2]);
    let evaluator = SimpleEval::new();
    assert_eq!(board.game_state(), GameState::InProgress);
    assert_eq!(board.cur_player(), Player::Red);
    assert_eq!(negamax(&mut board, 2, &evaluator, Player::Red), -INFINITY);
    assert_eq!(abnegamax(&board, 2, 0, &evaluator, Player::Red, None), -INFINITY);
    assert_eq!(batch_negamax(&board, 2, &evaluator, Player::Red), -INFINITY);
}

#[test]
fn finished_games_have_the_value_of_their_outcome() {
    let mut board = position(&[1, 2, 2, 3, 2, 4, 2, 5]);
    let evaluator = SimpleEval::new();
    assert_eq!(board.game_state(), GameState::Won(Player::Yellow));
    assert_eq!(evaluator.value(&board, Player::Yellow), INFINITY);
    assert_eq!(evaluator.value(&board, Player::Red), -INFINITY);
    assert_eq!(negamax(&mut board, 4, &evaluator, Player::Yellow), INFINITY);
    assert_eq!(negamax(&mut board, 4, &evaluator, Player::Red), -INFINITY);
    assert_eq!(abnegamax(&board, 4, 0, &evaluator, Player::Red, None), -INFINITY);
    assert_eq!(batch_negamax(&board, 4, &evaluator, Player::Red), -INFINITY);
    let boards = vec![Connect4::new(), board];
    assert_eq!(evaluator.values(&boards, Player::Yellow), vec![0, INFINITY]);
}

#[test]
fn pruning_table_and_batches_do_not_change_the_value() {
    let evaluator = SimpleEval::new();
    let starts: Vec<Vec<usize>> = vec![
        vec![],
        vec![3, 3, 4],
        vec![0, 1, 0, 1, 0],
        vec![3, 2, 4, 5, 3, 3, 4, 4],
        vec![0, 1, 0, 1, 6, 1, 6, 2, 5, 2, 5],
    ];
    for moves in starts {
        let board = position(&moves);
        for depth in 0..5u32 {
            for player in [Player::Red, Player::Yellow] {
                let mut scratch = board;
                let plain = negamax(&mut scratch, depth, &evaluator, player);
                assert_eq!(scratch, board);
                assert_eq!(abnegamax(&board, depth, 0, &evaluator, player, None), plain);
                assert_eq!(batch_negamax(&board, depth, &evaluator, player), plain);
                for batch_depth in 0..=depth {
                    let mut tt = TranspositionTable::new();
                    assert_eq!(
                        abnegamax(&board, depth, batch_depth, &evaluator, player, Some(&mut tt)),
                        plain
                    );
                    // A table that has been used is still good for the next search.
                    assert_eq!(
                        abnegamax(&board, depth, batch_depth, &evaluator, player, Some(&mut tt)),
                        plain
                    );
                }
            }
        }
    }
}

#[test]
fn leaves_are_the_positions_at_the_given_depth() {
    let mut board = Connect4::new();
    let none = leafs(&mut board, 0);
    assert_eq!(none, vec![Connect4::new()]);
    let one = leafs(&mut board, 1);
    assert_eq!(one.len(), 7);
    for (i, leaf) in one.iter().enumerate() {
        assert_eq!(*leaf, position(&[i]));
    }
    assert_eq!(leafs(&mut board, 2).len(), 49);
    assert_eq!(board, Connect4::new());
    // Nothing lies below a finished game.
    let mut won = position(&[1, 2, 2, 3, 2, 4, 2, 5]);
    assert_eq!(leafs(&mut won, 1).len(), 0);
    assert_eq!(leafs(&mut won, 0).len(), 1);
    // A winning move ends its branch.
    let mut near = position(&[0, 1, 0, 1, 0, 1]);
    assert_eq!(leafs(&mut near, 2).len(), 6 * 7);
}

#[test]
fn best_actions_are_legal_and_best() {
    let evaluator = SimpleEval::new();
    let board = position(&[0, 1, 0, 1, 0, 1]);
    for _ in 0..5 {
        assert_eq!(abnegamax_best_action(&board, 1, &evaluator, Player::Red), 0);
        assert_eq!(batch_negamax_best_action(&board, 1, &evaluator, Player::Red), 0);
        assert_eq!(batch_abnegamax_best_action(&board, 3, 1, &evaluator, Player::Red), 0);
    }
    // Yellow must stop the column.
    let board = position(&[0, 1, 0, 1, 0]);
    for _ in 0..5 {
        assert_eq!(abnegamax_best_action(&board, 2, &evaluator, Player::Yellow), 0);
        assert_eq!(batch_negamax_best_action(&board, 2, &evaluator, Player::Yellow), 0);
        assert_eq!(batch_abnegamax_best_action(&board, 2, 2, &evaluator, Player::Yellow), 0);
    }
    // Where all moves are worth the same any legal column may come.
    let board = Connect4::new();
    let action = abnegamax_best_action(&board, 2, &evaluator, Player::Red);
    assert!(action < 7);
}

#[test]
fn reply_values_value_every_move() {
    let evaluator = SimpleEval::new();
    let board = position(&[0, 1, 0, 1, 0, 1]);
    let mut tt: TranspositionTable<Bound<Connect4>> = TranspositionTable::new();
    let (actions, values) = reply_values(&board, 2, 0, &evaluator, Player::Red, &mut tt);
    assert_eq!(actions, vec![0, 1, 2, 3, 4, 5, 6]);
    // Column 0 wins; column 1 stops the opponent's column; every other move loses.
    assert_eq!(values, vec![INFINITY, 0, -INFINITY, -INFINITY, -INFINITY, -INFINITY, -INFINITY]);
}

#[test]
fn search_on_the_second_game() {
    let evaluator = SimpleEval::new();
    let mut board = Stack4::new();
    for a in [(0, 0), (0, 7), (1, 0), (1, 7), (2, 0), (2, 7)] {
        board.play_action(a);
    }
    let mut scratch = board;
    assert_eq!(negamax(&mut scratch, 1, &evaluator, Player::Red), INFINITY);
    assert_eq!(scratch, board);
    assert_eq!(abnegamax(&board, 2, 0, &evaluator, Player::Red, None), INFINITY);
    assert_eq!(batch_negamax(&board, 2, &evaluator, Player::Red), INFINITY);
    assert_eq!(abnegamax_best_action(&board, 2, &evaluator, Player::Red), (3, 0));
}

#[test]
fn minimax_agrees_with_negamax() {
    let evaluator = SimpleEval::new();
    let starts: Vec<Vec<usize>> = vec![
        vec![],
        vec![0, 1, 0, 1, 0],
        vec![0, 1, 0, 1, 0, 1],
        vec![0, 1, 0, 1, 6, 1, 6, 2, 5, 2, 5, 2],
        vec![1, 2, 2, 3, 2, 4, 2, 5],
    ];
    for moves in starts {
        let board = position(&moves);
        for depth in 0..4u32 {
            for player in [Player::Red, Player::Yellow] {
                let mut scratch = board;
                assert_eq!(
                    minimax(&board, depth, &evaluator, player),
                    negamax(&mut scratch, depth, &evaluator, player)
                );
            }
        }
    }
    let board = position(&[0, 1, 0, 1, 0, 1]);
    assert_eq!(minimax(&board, 1, &evaluator, Player::Red), INFINITY);
    assert_eq!(minimax(&board, 0, &evaluator, Player::Red), 0);
    let mut scratch = board;
    assert_eq!(minimax_action(&mut scratch, 0, 3, &evaluator, Player::Red), INFINITY);
    // Red plays elsewhere and Yellow, who seeks the least value, wins.
    assert_eq!(minimax_action(&mut scratch, 6, 1, &evaluator, Player::Red), -INFINITY);
    assert_eq!(minimax_action(&mut scratch, 6, 0, &evaluator, Player::Red), 0);
    // Red stops the column of Yellow: nothing is decided one ply later.
    assert_eq!(minimax_action(&mut scratch, 1, 1, &evaluator, Player::Red), 0);
    assert_eq!(scratch, board);
}
