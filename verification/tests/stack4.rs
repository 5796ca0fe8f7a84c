use gamesolver::games::stack4::Stack4;
use gamesolver::games::{Game, GameState, Player};

#[test]
fn draw() {
    let actions = vec![
        (3, 0),
        (3, 1),
        (0, 2),
        (1, 0),
        (2, 0),
        (2, 1),
        (2, 2),
        (2, 3),
        (2, 4),
        (2, 5),
        (2, 6),
        (2, 7),
        (0, 0),
        (0, 1),
        (0, 3),
        (0, 4),
        (0, 5),
        (0, 6),
        (0, 7),
        (7, 7),
        (1, 1),
        (1, 2),
        (1, 3),
        (1, 4),
        (1, 5),
        (1, 6),
        (1, 7),
        (7, 6),
        (3, 2),
        (3, 3),
        (3, 4),
        (3, 5),
        (3, 6),
        (3, 7),
        (7, 5),
        (4, 0),
        (4, 1),
        (4, 2),
        (4, 3),
        (4, 4),
        (4, 5),
        (4, 6),
        (4, 7),
        (5, 0),
        (5, 1),
        (5, 2),
        (5, 3),
        (5, 4),
        (5, 5),
        (5, 6),
        (5, 7),
        (6, 7),
        (6, 0),
        (6, 1),
        (6, 2),
        (6, 3),
        (6, 4),
        (6, 5),
        (6, 6),
        (7, 0),
        (7, 1),
        (7, 2),
        (7, 3),
        (7, 4),
    ];
    let mut board = Stack4::new();
    for action in actions {
        board.play_action(action);
    }
    println!("{:?}", board);
    assert_eq!(board.game_state(), GameState::Draw);

    let mut board = Stack4::new();
    board.nb_moves = 64;
    board.board = 120182736557749463504389418626142590566;
    board.reverse_last_action((0, 0));
    println!("{:?}", board);
    assert_eq!(board.game_state(), GameState::InProgress);
    assert!(!board.is_full());
    board.play_action((0, 0));
    println!("{:?}", board);
    println!("{:?}", board.game_state());
    assert!(board.is_full());
    assert_ne!(board.game_state(), GameState::InProgress);
}

#[test]
fn stack4_new_board() {
    let board = Stack4::new();
    assert_eq!(board.board, 0);
    assert_eq!(board.cur_player(), Player::Red);
    assert_eq!(board.game_state(), GameState::InProgress);
    assert_eq!(board.length(), 0);
    assert!(!board.is_full());
    assert_eq!(Stack4::shape(), [8, 8]);
}

#[test]
fn stack4_first_moves_are_the_border_cells_centre_first() {
    let board = Stack4::new();
    let moves = board.legal_actions();
    // 28 border cells, each once.
    assert_eq!(moves.len(), 28);
    for (i, a) in moves.iter().enumerate() {
        assert!(a.0 == 0 || a.0 == 7 || a.1 == 0 || a.1 == 7);
        for b in &moves[i + 1..] {
            assert_ne!(a, b);
        }
    }
    assert_eq!(&moves[0..8], &[(3, 0), (7, 3), (4, 7), (0, 4), (4, 0), (7, 4), (3, 7), (0, 3)]);
    assert_eq!(&moves[24..28], &[(0, 0), (7, 0), (7, 7), (0, 7)]);
}

#[test]
fn stack4_moves_stack_inward() {
    let mut board = Stack4::new();
    board.play_action((3, 0));
    assert_eq!(board.length(), 1);
    assert_eq!(board.get(3, 0), 1);
    assert_eq!(board.board, 1u128 << 6);
    let moves = board.legal_actions();
    assert!(moves.contains(&(3, 1)));
    assert!(!moves.contains(&(3, 0)));
    assert!(moves.contains(&(2, 0)));
    assert!(moves.contains(&(4, 0)));
    assert_eq!(moves.len(), 28);
    board.play_action((3, 1));
    assert_eq!(board.get(3, 1), 2);
    assert_eq!(board.board, (1u128 << 6) | (2u128 << 22));
    board.reverse_last_action((3, 1));
    board.reverse_last_action((3, 0));
    assert_eq!(board, Stack4::new());
}

#[test]
fn stack4_winning_and_blocking_moves_come_first() {
    let mut board = Stack4::new();
    // Red: (0,0) (1,0) (2,0); Yellow: (0,7) (1,7) (2,7); Red to move.
    for a in [(0, 0), (0, 7), (1, 0), (1, 7), (2, 0), (2, 7)] {
        board.play_action(a);
    }
    assert_eq!(board.cur_player(), Player::Red);
    assert!(board.is_winning_action((3, 0), Player::Red));
    assert!(!board.is_winning_action((3, 0), Player::Yellow));
    assert!(board.is_winning_action((3, 7), Player::Yellow));
    assert!(!board.is_winning_action((4, 0), Player::Red));
    let moves = board.legal_actions();
    assert_eq!(moves[0], (3, 0));
    assert_eq!(moves[1], (3, 7));
    assert_eq!(moves[2], (7, 3));
    board.play_action((3, 0));
    assert_eq!(board.game_state(), GameState::Won(Player::Red));
    assert!(board.player_won([3, 0]));
    assert!(board.player_won([0, 0]));
    assert!(!board.player_won([0, 7]));
}

#[test]
fn stack4_play_then_reverse_restores_everything() {
    let mut board = Stack4::new();
    for _ in 0..20 {
        let moves = board.legal_actions();
        let action = moves[moves.len() / 2];
        let before = board;
        board.play_action(action);
        let mut undone = board;
        undone.reverse_last_action(action);
        assert_eq!(undone, before);
        if board.game_state() != GameState::InProgress {
            break;
        }
    }
}

#[test]
fn stack4_rotation_and_mirror() {
    let mut board = Stack4::new();
    for a in [(3, 0), (3, 1), (0, 4), (7, 2), (1, 4)] {
        board.play_action(a);
    }
    for n in 0..4u32 {
        let turned = board.rotation(n);
        for x in 0..8i32 {
            for y in 0..8i32 {
                let (nx, ny) = Stack4::rotate(x, y, n);
                assert_eq!(turned.get(nx as usize, ny as usize), board.get(x as usize, y as usize));
            }
        }
        assert_eq!(turned.cur_player, board.cur_player);
        assert_eq!(turned.game_state, board.game_state);
        assert_eq!(turned.nb_moves, board.nb_moves);
    }
    assert_eq!(Stack4::rotate(1, 2, 0), (1, 2));
    assert_eq!(Stack4::rotate(1, 2, 1), (5, 1));
    assert_eq!(Stack4::rotate(1, 2, 2), (6, 5));
    assert_eq!(Stack4::rotate(1, 2, 3), (2, 6));
    assert_eq!(Stack4::rotate(1, 2, 4), (1, 2));
    assert_eq!(board.rotation(0), board);
    assert_eq!(board.rotation(1).rotation(3), board);
    assert_eq!(board.rotation(2).rotation(2), board);
    let mirrored = board.mirror();
    for x in 0..8 {
        for y in 0..8 {
            assert_eq!(mirrored.get(x, y), board.get(7 - x, y));
        }
    }
    assert_eq!(mirrored.mirror(), board);
}

#[test]
fn stack4_symmetries_are_the_eight_of_the_square() {
    let mut board = Stack4::new();
    for a in [(3, 0), (3, 1), (0, 4), (7, 2), (1, 4)] {
        board.play_action(a);
    }
    let all = board.symmetries();
    assert_eq!(all.len(), 8);
    assert_eq!(all[0], board);
    for n in 0..4u32 {
        assert_eq!(all[2 * n as usize], board.rotation(n));
        assert_eq!(all[2 * n as usize + 1], board.rotation(n).mirror());
    }
    for (i, s) in all.iter().enumerate() {
        assert_eq!(s.game_state(), board.game_state());
        assert_eq!(s.cur_player(), board.cur_player());
        assert!(s.is_valid());
        assert_eq!(s.count_pieces(), board.count_pieces());
        for t in &all[i + 1..] {
            assert_ne!(s.uid(), t.uid());
        }
    }
}

#[test]
fn stack4_vectorize() {
    let mut board = Stack4::new();
    board.play_action((0, 0));
    board.play_action((1, 0));
    let red = board.vectorize(Player::Red);
    let yellow = board.vectorize(Player::Yellow);
    assert_eq!(red.len(), 64);
    assert_eq!(red[0], 1);
    assert_eq!(red[1], -1);
    assert_eq!(red[2], 0);
    for k in 0..64 {
        assert_eq!(red[k], -yellow[k]);
    }
}

#[test]
fn stack4_in_board() {
    assert!(Stack4::in_board(0, 0));
    assert!(Stack4::in_board(7, 7));
    assert!(!Stack4::in_board(8, 0));
    assert!(!Stack4::in_board(0, 8));
    assert!(!Stack4::in_board(-1, 3));
}

#[test]
fn stack4_is_full_needs_every_cell() {
    let mut board = Stack4::new();
    for x in 0..8 {
        for y in 0..8 {
            assert!(!board.is_full());
            board.set(x, y, if (x + 2 * y) % 4 < 2 { 1 } else { 2 });
        }
    }
    assert!(board.is_full());
    board.set(5, 5, 0);
    assert!(!board.is_full());
    assert_eq!(board.legal_actions(), vec![(5, 5)]);
}
