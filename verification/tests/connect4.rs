use gamesolver::games::connect4::Connect4;
use gamesolver::games::{Game, GameState, Player};

#[test]
fn player_won() {
    let mut board = Connect4::new();
    let moves = vec![1, 2, 2, 3, 2, 4, 2, 5];
    for mv in &moves[0..moves.len() - 1] {
        board.play_action(*mv);
        println!("{:?}", board);
        assert_eq!(board.game_state, GameState::InProgress);
    }
    board.play_action(moves[moves.len() - 1]);
    println!("{:?}", board);
    println!("{:?}", board.game_state);
    assert_eq!(board.game_state, GameState::Won(Player::Yellow));
}

#[test]
fn reverse_move() {
    let mut board = Connect4::new();
    let moves = vec![1, 2, 2, 3, 2, 4, 2, 5];
    for mv in &moves[0..moves.len() - 1] {
        board.play_action(*mv);
        println!("{:?}", board);
        assert_eq!(board.game_state, GameState::InProgress);
    }
    board.play_action(moves[moves.len() - 1]);
    println!("{:?}", board);
    println!("{:?}", board.game_state);
    assert_eq!(board.game_state, GameState::Won(Player::Yellow));
    board.reverse_last_action(moves[moves.len() - 1]);
    assert_eq!(board.game_state, GameState::InProgress);
    board.play_action(6);
    board.play_action(2);
    assert_eq!(board.game_state, GameState::Won(Player::Red));

    let mut board = Connect4::new();
    board.play_action(0);
    board.play_action(0);
    board.play_action(0);
    board.play_action(0);
    board.play_action(0);
    let old_board = board.clone();
    board.play_action(0);
    board.reverse_last_action(0);
    println!("{:?}\n{:?}", old_board, board);
    assert_eq!(old_board.board, board.board);
}

#[test]
fn connect4_player_won() {
    let mut board = Connect4::new();
    let moves = vec![1, 2, 2, 3, 2, 4, 2, 5];
    for mv in &moves[0..moves.len() - 1] {
        board.play_move(*mv);
        println!("{:?}", board);
        assert_eq!(board.game_state, GameState::InProgress);
    }
    board.play_move(moves[moves.len() - 1]);
    println!("{:?}", board);
    println!("{:?}", board.game_state);
    assert_eq!(board.game_state, GameState::Won(Player::Yellow));
}

#[test]
fn connect4_reverse_move() {
    let mut board = Connect4::new();
    let moves = vec![1, 2, 2, 3, 2, 4, 2, 5];
    for mv in &moves[0..moves.len() - 1] {
        board.play_move(*mv);
        println!("{:?}", board);
        assert_eq!(board.game_state, GameState::InProgress);
    }
    board.play_move(moves[moves.len() - 1]);
    println!("{:?}", board);
    println!("{:?}", board.game_state);
    assert_eq!(board.game_state, GameState::Won(Player::Yellow));
    board.reverse_last_action(moves[moves.len() - 1]);
    assert_eq!(board.game_state, GameState::InProgress);
    board.play_move(6);
    board.play_move(2);
    assert_eq!(board.game_state, GameState::Won(Player::Red));

    let mut board = Connect4::new();
    board.play_move(0);
    board.play_move(0);
    board.play_move(0);
    board.play_move(0);
    board.play_move(0);
    let old_board = board.clone();
    board.play_move(0);
    board.reverse_last_action(0);
    println!("{:?}\n{:?}", old_board, board);
    assert_eq!(old_board.board, board.board);
}

#[test]
fn connect4_new_board_is_empty() {
    let board = Connect4::new();
    assert_eq!(board.board, 0);
    assert_eq!(board.cur_player, Player::Red);
    assert_eq!(board.game_state, GameState::InProgress);
    assert_eq!(board.legal_actions(), vec![0, 1, 2, 3, 4, 5, 6]);
    assert!(!board.is_full());
}

#[test]
fn connect4_cell_layout() {
    let mut board = Connect4::new();
    board.play_action(3);
    assert_eq!(board.board, 1u128 << 6);
    assert_eq!(board.get(3, 0), 1);
    assert_eq!(board.cur_player, Player::Yellow);
    board.play_action(3);
    assert_eq!(board.board, (1u128 << 6) | (2u128 << 20));
    assert_eq!(board.get(3, 1), 2);
    assert_eq!(board.uid(), board.board);
    board.set(6, 5, 2);
    assert_eq!(board.get(6, 5), 2);
    assert_eq!(board.board, (1u128 << 6) | (2u128 << 20) | (2u128 << 82));
    board.set(6, 5, 0);
    assert_eq!(board.board, (1u128 << 6) | (2u128 << 20));
}

#[test]
fn connect4_full_column_is_not_legal() {
    let mut board = Connect4::new();
    for _ in 0..6 {
        board.play_action(2);
    }
    assert!(!board.is_valid_move(2));
    assert!(board.is_valid_move(3));
    assert_eq!(board.legal_actions(), vec![0, 1, 3, 4, 5, 6]);
    assert_eq!(board.valid_moves(), vec![0, 1, 3, 4, 5, 6]);
    assert_eq!(board.pos_from_action(2), [2, 5]);
    assert_eq!(board.action_pos(3), [3, 0]);
}

#[test]
fn connect4_play_then_reverse_restores_everything() {
    let mut board = Connect4::new();
    let moves = vec![3, 3, 4, 2, 5, 1, 0, 6, 6, 6, 3];
    for mv in moves {
        let before = board;
        board.play_action(mv);
        assert_ne!(board.cur_player, before.cur_player);
        let mut undone = board;
        undone.reverse_last_action(mv);
        assert_eq!(undone, before);
    }
}

#[test]
fn connect4_wins_in_every_direction() {
    // across
    let mut board = Connect4::new();
    for mv in [0, 0, 1, 1, 2, 2, 3] {
        board.play_action(mv);
    }
    assert_eq!(board.game_state, GameState::Won(Player::Red));
    assert!(board.player_won([3, 0]));
    assert!(board.player_won([0, 0]));
    assert!(!board.player_won([0, 1]));
    // upright
    let mut board = Connect4::new();
    for mv in [0, 1, 0, 1, 0, 1, 0] {
        board.play_action(mv);
    }
    assert_eq!(board.game_state, GameState::Won(Player::Red));
    // rising diagonal
    let mut board = Connect4::new();
    for mv in [0, 1, 1, 2, 2, 3, 2, 3, 3, 6, 3] {
        board.play_action(mv);
    }
    assert_eq!(board.game_state, GameState::Won(Player::Red));
    // falling diagonal
    let mut board = Connect4::new();
    for mv in [6, 5, 5, 4, 4, 3, 4, 3, 3, 0, 3] {
        board.play_action(mv);
    }
    assert_eq!(board.game_state, GameState::Won(Player::Red));
}

#[test]
fn connect4_mirror() {
    let mut board = Connect4::new();
    for mv in [0, 1, 1, 6, 3] {
        board.play_action(mv);
    }
    let mirrored = board.symmetry();
    for x in 0..7 {
        for y in 0..6 {
            assert_eq!(mirrored.get(x, y), board.get(6 - x, y));
        }
    }
    assert_eq!(mirrored.cur_player, board.cur_player);
    assert_eq!(mirrored.game_state, board.game_state);
    assert_eq!(mirrored.symmetry(), board);
    let all = board.symmetries();
    assert_eq!(all, vec![board, mirrored]);
    assert!(board.is_valid());
    assert!(mirrored.is_valid());
    assert_ne!(board.uid(), mirrored.uid());
}

#[test]
fn connect4_vectorize() {
    let mut board = Connect4::new();
    board.play_action(0);
    board.play_action(1);
    let red = board.vectorize(Player::Red);
    let yellow = board.vectorize(Player::Yellow);
    assert_eq!(red.len(), 42);
    assert_eq!(red[0], 1);
    assert_eq!(red[1], -1);
    assert_eq!(red[2], 0);
    for k in 0..42 {
        assert_eq!(red[k], -yellow[k]);
    }
    assert_eq!(Connect4::shape(), [6, 7]);
}

#[test]
fn connect4_in_board() {
    let board = Connect4::new();
    assert!(board.in_board(0, 0));
    assert!(board.in_board(6, 5));
    assert!(!board.in_board(7, 0));
    assert!(!board.in_board(0, 6));
    assert!(!board.in_board(-1, 0));
    assert!(!board.in_board(0, -1));
}

#[test]
fn connect4_draw_when_board_fills_without_a_line() {
    let mut board = Connect4::new();
    // Columns are filled in an order that never gives four in a line.
    let order = [0, 1, 2, 4, 5, 6];
    for pair in [[0usize, 1], [2, 4], [5, 6]] {
        for _ in 0..3 {
            board.play_action(pair[0]);
            board.play_action(pair[1]);
        }
        for _ in 0..3 {
            board.play_action(pair[1]);
            board.play_action(pair[0]);
        }
    }
    assert_eq!(order.len(), 6);
    assert_eq!(board.game_state, GameState::InProgress);
    assert_eq!(board.legal_actions(), vec![3]);
    for _ in 0..5 {
        board.play_action(3);
        assert_eq!(board.game_state, GameState::InProgress);
    }
    board.play_action(3);
    assert!(board.is_full());
    assert_eq!(board.game_state, GameState::Draw);
}

#[test]
fn player_codes() {
    assert_eq!(Player::Red.code(), 1);
    assert_eq!(Player::Yellow.code(), 2);
    assert_eq!(Player::Red.opponent(), Player::Yellow);
    assert_eq!(Player::Yellow.opponent(), Player::Red);
    assert_eq!(!Player::Red, Player::Yellow);
    assert_eq!(!Player::Yellow, Player::Red);
    assert_eq!(Player::from_code(1), Some(Player::Red));
    assert_eq!(Player::from_code(2), Some(Player::Yellow));
    assert_eq!(Player::from_code(0), None);
    assert_eq!(Player::from_code(3), None);
    assert_eq!(GameState::Won(Player::Yellow), GameState::Won(Player::from_code(2).unwrap()));
}
