use gamesolver::games::connect4::Connect4;
use gamesolver::games::stack4::Stack4;
use gamesolver::games::{Game, GameState, Player};
use gamesolver::protocol::{
    cell_request, column_request, find_comma, is_listed, parse_cell, parse_number, PlayableGame,
    Request,
};

#[test]
fn numbers_are_strings_of_digits() {
    assert_eq!(parse_number(b"0", 0, 1), Some(0));
    assert_eq!(parse_number(b"42", 0, 2), Some(42));
    assert_eq!(parse_number(b"007", 0, 3), Some(7));
    assert_eq!(parse_number(b"+5", 0, 2), Some(5));
    assert_eq!(parse_number(b"x12y", 1, 3), Some(12));
    assert_eq!(parse_number(b"", 0, 0), None);
    assert_eq!(parse_number(b"+", 0, 1), None);
    assert_eq!(parse_number(b"-5", 0, 2), None);
    assert_eq!(parse_number(b"5 ", 0, 2), None);
    assert_eq!(parse_number(b" 5", 0, 2), None);
    assert_eq!(parse_number(b"++5", 0, 3), None);
    assert_eq!(parse_number(b"1a", 0, 2), None);
    let max = format!("{}", usize::MAX);
    assert_eq!(parse_number(max.as_bytes(), 0, max.len()), Some(usize::MAX));
    let over = format!("{}0", usize::MAX);
    assert_eq!(parse_number(over.as_bytes(), 0, over.len()), None);
    let next = format!("{}", usize::MAX as u128 + 1);
    assert_eq!(parse_number(next.as_bytes(), 0, next.len()), None);
    // The same as the standard parser on these lines.
    for line in ["0", "12", "+3", "", "+", "a", "1 ", "-1", "99999999999999999999999"] {
        assert_eq!(parse_number(line.as_bytes(), 0, line.len()), line.parse::<usize>().ok());
    }
}

#[test]
fn commas_and_cells() {
    assert_eq!(find_comma(b"12,3", 0), 2);
    assert_eq!(find_comma(b"12,3", 3), 4);
    assert_eq!(find_comma(b"123", 0), 3);
    assert_eq!(find_comma(b",", 0), 0);
    assert_eq!(parse_cell(b"3,4"), Some((3, 4)));
    assert_eq!(parse_cell(b"10,200"), Some((10, 200)));
    assert_eq!(parse_cell(b"3,4,5"), Some((3, 4)));
    assert_eq!(parse_cell(b"3,4,"), Some((3, 4)));
    assert_eq!(parse_cell(b"3"), None);
    assert_eq!(parse_cell(b"3,"), None);
    assert_eq!(parse_cell(b",4"), None);
    assert_eq!(parse_cell(b"3, 4"), None);
    assert_eq!(parse_cell(b""), None);
    assert!(is_listed(&vec![(1, 2), (3, 4)], (3, 4)));
    assert!(!is_listed(&vec![(1, 2), (3, 4)], (4, 3)));
    assert!(!is_listed(&vec![], (0, 0)));
}

#[test]
fn what_a_line_asks_for_in_the_first_game() {
    let mut board = Connect4::new();
    for _ in 0..6 {
        board.play_action(2);
    }
    assert_eq!(column_request(b"z", &board), Request::Undo);
    assert_eq!(column_request(b"zebra", &board), Request::Undo);
    assert_eq!(column_request(b"3", &board), Request::Move(3));
    assert_eq!(column_request(b"6", &board), Request::Move(6));
    assert_eq!(column_request(b"7", &board), Request::OutOfRange);
    assert_eq!(column_request(b"2", &board), Request::Illegal);
    assert_eq!(column_request(b"", &board), Request::Invalid);
    assert_eq!(column_request(b"three", &board), Request::Invalid);
    assert_eq!(board.get_action_from_user(b"4"), Request::Move(4));
    assert_eq!(board.get_action_from_user(b"z"), Request::Undo);
}

#[test]
fn what_a_line_asks_for_in_the_second_game() {
    let mut board = Stack4::new();
    board.play_action((3, 0));
    assert_eq!(cell_request(b"z", &board), Request::Undo);
    assert_eq!(cell_request(b"3,1", &board), Request::Move((3, 1)));
    assert_eq!(cell_request(b"0,0", &board), Request::Move((0, 0)));
    assert_eq!(cell_request(b"3,0", &board), Request::Illegal);
    assert_eq!(cell_request(b"3,3", &board), Request::Illegal);
    assert_eq!(cell_request(b"8,0", &board), Request::OutOfRange);
    assert_eq!(cell_request(b"0,8", &board), Request::OutOfRange);
    assert_eq!(cell_request(b"3", &board), Request::Invalid);
    assert_eq!(cell_request(b"", &board), Request::Invalid);
    assert_eq!(board.get_action_from_user(b"7,7"), Request::Move((7, 7)));
}

#[test]
fn positions_that_play_can_reach_are_valid() {
    let mut board = Connect4::new();
    assert!(board.is_valid());
    for mv in [3, 3, 4, 2, 5, 1, 0, 6, 6, 6, 3] {
        board.play_action(mv);
        assert!(board.is_valid());
        assert!(!board.any_line());
    }
    let mut won = Connect4::new();
    for mv in [1, 2, 2, 3, 2, 4, 2, 5] {
        won.play_action(mv);
        assert!(won.is_valid());
    }
    assert!(won.any_line());
    // A piece in the air, a code that stands for nothing, a state that does
    // not fit the board.
    let mut floating = Connect4::new();
    floating.set(3, 2, 1);
    assert!(!floating.is_valid());
    let mut coded = Connect4::new();
    coded.set(0, 0, 3);
    assert!(!coded.is_valid());
    let mut stated = Connect4::new();
    stated.game_state = GameState::Draw;
    assert!(!stated.is_valid());
    won.game_state = GameState::InProgress;
    assert!(!won.is_valid());
}

#[test]
fn positions_of_the_second_game_that_play_can_reach_are_valid() {
    let mut board = Stack4::new();
    assert!(board.is_valid());
    for _ in 0..30 {
        let moves = board.legal_actions();
        board.play_action(moves[moves.len() - 1]);
        assert!(board.is_valid());
        assert_eq!(board.count_pieces(), board.length());
        if board.game_state() != GameState::InProgress {
            break;
        }
    }
    // A piece in the middle of an empty board cannot be reached.
    let mut floating = Stack4::new();
    floating.set(3, 3, 1);
    floating.nb_moves = 1;
    assert!(!floating.is_valid());
    let mut miscounted = Stack4::new();
    miscounted.set(0, 0, 1);
    assert!(!miscounted.is_valid());
    miscounted.nb_moves = 1;
    assert!(miscounted.is_valid());
    miscounted.set(1, 0, 3);
    miscounted.nb_moves = 2;
    assert!(!miscounted.is_valid());
}

#[test]
fn a_position_from_a_flat_list_of_cells() {
    let mut cells = vec![0u8; 64];
    cells[0] = 1; // (0, 0)
    cells[1] = 2; // (0, 1)
    cells[8] = 1; // (1, 0)
    let board = Stack4::from_cells(&cells, 2).unwrap();
    assert_eq!(board.get(0, 0), 1);
    assert_eq!(board.get(0, 1), 2);
    assert_eq!(board.get(1, 0), 1);
    assert_eq!(board.get(2, 0), 0);
    assert_eq!(board.cur_player(), Player::Yellow);
    assert_eq!(board.game_state(), GameState::InProgress);
    assert_eq!(board.length(), 3);
    assert!(board.is_valid());
    for i in 0..64 {
        assert_eq!(board.get(i / 8, i % 8), cells[i]);
    }
    assert_eq!(Stack4::from_cells(&cells, 0), None);
    assert_eq!(Stack4::from_cells(&cells, 3), None);
    assert_eq!(Stack4::from_cells(&cells[0..63], 1), None);
    cells[63] = 3;
    assert_eq!(Stack4::from_cells(&cells, 1), None);
}
