use gamesolver::agents::{Agent, MinimaxAgent};
use gamesolver::evaluators::SimpleEval;
use gamesolver::games::connect4::Connect4;
use gamesolver::games::{Game, GameState, Player};
use gamesolver::matchmaker::{play_game, MatchMaker};
use gamesolver::policies::Greedy;
use gamesolver::qlearning::{
    episode, forced_outcome, plan_update, reward, states_of, TdStep, TdTarget,
};
use gamesolver::agents::MinimaxPolicyAgent;
use gamesolver::evaluators::INFINITY;

#[test]
fn a_game_is_played_to_its_end() {
    let evaluator = SimpleEval::new();
    let first = MinimaxAgent::new(&evaluator, 2);
    let second = MinimaxAgent::new(&evaluator, 1);
    let boards: Vec<Connect4> = play_game(&first, &second);
    assert!(boards.len() >= 7);
    assert!(boards.len() <= 42);
    let mut prev = Connect4::new();
    for (i, board) in boards.iter().enumerate() {
        assert_eq!(prev.game_state(), GameState::InProgress);
        // Each position comes from the one before it by one legal move.
        let mut found = false;
        for action in prev.legal_actions() {
            let mut next = prev;
            next.play_action(action);
            if next == *board {
                found = true;
            }
        }
        assert!(found);
        assert_eq!(board.cur_player(), if i % 2 == 0 { Player::Yellow } else { Player::Red });
        prev = *board;
    }
    assert_ne!(boards[boards.len() - 1].game_state(), GameState::InProgress);
}

#[test]
fn agents_behind_pointers_play_too() {
    let evaluator = SimpleEval::new();
    let first = MinimaxAgent::new(&evaluator, 1);
    let second = MinimaxAgent::new(&evaluator, 1);
    let first: &dyn Agent<Connect4> = &first;
    let second: &dyn Agent<Connect4> = &second;
    let boards: Vec<Connect4> = play_game(first, second);
    assert_ne!(boards[boards.len() - 1].game_state(), GameState::InProgress);
    let hist: Vec<(Connect4, bool)> = episode(first, second);
    assert_ne!(hist[hist.len() - 1].0.game_state(), GameState::InProgress);
}

#[test]
fn match_maker_counts_draws_wins_and_losses() {
    let evaluator = SimpleEval::new();
    let a = MinimaxAgent::new(&evaluator, 1);
    let b = MinimaxAgent::new(&evaluator, 1);
    let mut mm: MatchMaker<Connect4, MinimaxAgent<SimpleEval>> = MatchMaker::new();
    mm.add_agent(&a);
    mm.add_agent(&b);
    assert_eq!(mm.scores(), vec![[0, 0, 0], [0, 0, 0]]);
    assert_eq!(mm.scores_hist(), Vec::<Vec<[i32; 3]>>::new());
    mm.hist.push((0, 1, GameState::Won(Player::Red)));
    mm.hist.push((1, 0, GameState::Won(Player::Red)));
    mm.hist.push((0, 1, GameState::Draw));
    mm.hist.push((0, 1, GameState::Won(Player::Yellow)));
    mm.hist.push((1, 0, GameState::Won(Player::Yellow)));
    mm.hist.push((0, 1, GameState::Won(Player::Yellow)));
    // [draws, wins, losses]
    assert_eq!(mm.scores(), vec![[1, 2, 3], [1, 3, 2]]);
    assert_eq!(
        mm.scores_hist(),
        vec![
            vec![[0, 1, 0], [0, 0, 1]],
            vec![[0, 1, 1], [0, 1, 1]],
            vec![[1, 1, 1], [1, 1, 1]],
            vec![[1, 1, 2], [1, 2, 1]],
            vec![[1, 2, 2], [1, 2, 2]],
            vec![[1, 2, 3], [1, 3, 2]],
        ]
    );
    // Per game: what it was worth to the agent.
    assert_eq!(mm.results_of(0), vec![1, -1, 0, -1, 1, -1]);
    assert_eq!(mm.results_of(1), vec![-1, 1, 0, 1, -1, 1]);
    assert_eq!(mm.results_of(2), Vec::<i8>::new());
    let c = MinimaxAgent::new(&evaluator, 2);
    mm.update_agent(1, &c);
    assert_eq!(mm.agents.len(), 2);
    assert_eq!(mm.agents[1].depth, 2);
}

#[test]
fn match_maker_plays_games() {
    let evaluator = SimpleEval::new();
    let a = MinimaxAgent::new(&evaluator, 1);
    let b = MinimaxAgent::new(&evaluator, 2);
    let mut mm: MatchMaker<Connect4, MinimaxAgent<SimpleEval>> = MatchMaker::new();
    mm.add_agent(&a);
    mm.add_agent(&b);
    mm.play_n_games(3);
    assert_eq!(mm.hist.len(), 3);
    for (red, yellow, result) in &mm.hist {
        assert_eq!(red + yellow, 1);
        assert_ne!(*result, GameState::InProgress);
    }
    let scores = mm.scores();
    for s in &scores {
        assert_eq!(s[0] + s[1] + s[2], 3);
    }
    assert_eq!(scores[0][0], scores[1][0]);
    assert_eq!(scores[0][1], scores[1][2]);
    assert_eq!(scores[0][2], scores[1][1]);
    assert_eq!(mm.scores_hist().len(), 3);
    assert_eq!(mm.scores_hist()[2], scores);
}

#[test]
fn rewards_and_forced_outcomes() {
    assert_eq!(reward(GameState::Won(Player::Red), Player::Red), 1);
    assert_eq!(reward(GameState::Won(Player::Red), Player::Yellow), -1);
    assert_eq!(reward(GameState::Won(Player::Yellow), Player::Yellow), 1);
    assert_eq!(reward(GameState::Draw, Player::Red), 0);
    assert_eq!(forced_outcome(INFINITY), Some(1));
    assert_eq!(forced_outcome(-INFINITY), Some(-1));
    assert_eq!(forced_outcome(0), None);
    assert_eq!(forced_outcome(INFINITY - 1), None);
}

fn recorded(moves: &[usize], explored: &[usize]) -> Vec<(Connect4, bool)> {
    let mut board = Connect4::new();
    let mut hist = Vec::new();
    for (i, mv) in moves.iter().enumerate() {
        board.play_action(*mv);
        hist.push((board, explored.contains(&i)));
    }
    hist
}

#[test]
fn update_plan_of_a_short_game() {
    // Red wins with the seventh move.
    let hist = recorded(&[0, 1, 0, 1, 0, 1, 0], &[2, 3]);
    assert_eq!(hist[6].0.game_state(), GameState::Won(Player::Red));
    // Red is to move after every move of Yellow.
    assert_eq!(states_of(&hist, Player::Red), vec![1, 3, 5]);
    assert_eq!(states_of(&hist, Player::Yellow), vec![0, 2, 4, 6]);
    assert_eq!(
        plan_update(&hist, Player::Red),
        vec![
            TdStep { state: 1, explored: false, target: TdTarget::Search(3) },
            TdStep { state: 3, explored: true, target: TdTarget::Reward(1) },
        ]
    );
    assert_eq!(
        plan_update(&hist, Player::Yellow),
        vec![
            TdStep { state: 0, explored: false, target: TdTarget::Search(2) },
            TdStep { state: 2, explored: true, target: TdTarget::Search(4) },
            TdStep { state: 4, explored: false, target: TdTarget::Reward(-1) },
        ]
    );
    assert_eq!(plan_update(&Vec::<(Connect4, bool)>::new(), Player::Red), vec![]);
    let one = recorded(&[0], &[]);
    assert_eq!(states_of(&one, Player::Red), Vec::<usize>::new());
}

#[test]
fn an_episode_is_a_game_with_marks() {
    let evaluator = SimpleEval::new();
    let policy = Greedy::new();
    let first = MinimaxPolicyAgent::new(&evaluator, &policy, 2);
    let second = MinimaxPolicyAgent::new(&evaluator, &policy, 2);
    let hist: Vec<(Connect4, bool)> = episode(&first, &second);
    assert!(hist.len() >= 7);
    assert_ne!(hist[hist.len() - 1].0.game_state(), GameState::InProgress);
    for (i, (board, explored)) in hist.iter().enumerate() {
        // A greedy policy never explores.
        assert!(!explored);
        if i + 1 < hist.len() {
            assert_eq!(board.game_state(), GameState::InProgress);
        }
    }
    let plan = plan_update(&hist, Player::Red);
    assert_eq!(plan.len(), states_of(&hist, Player::Red).len() - 1);
}
