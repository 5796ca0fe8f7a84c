use gamesolver::agents::{
    open_places, places_of, Agent, BatchMinimaxAgent, CompositeAgent, MinimaxAgent,
    MinimaxPolicyAgent,
};
use gamesolver::evaluators::{LinesEval, SimpleEval, INFINITY};
use gamesolver::games::connect4::Connect4;
use gamesolver::games::stack4::Stack4;
use gamesolver::games::{Game, Player};
use gamesolver::policies::{EpsilonGreedy, Greedy, Policy};

fn position(moves: &[usize]) -> Connect4 {
    let mut board = Connect4::new();
    for mv in moves {
        board.play_action(*mv);
    }
    board
}

#[test]
fn minimax_agents_take_the_win() {
    let evaluator = SimpleEval::new();
    let board = position(&[0, 1, 0, 1, 0, 1]);
    let agent = MinimaxAgent::new(&evaluator, 3);
    assert_eq!(agent.depth, 3);
    assert_eq!(agent.get_action(&board, Player::Red), 0);
    assert_eq!(agent.get_action_explored(&board, Player::Red), (0, false));
    let batched = BatchMinimaxAgent::new(&evaluator, 3, 2);
    assert_eq!(batched.batch_depth, 2);
    assert_eq!(batched.get_action(&board, Player::Red), 0);
    assert_eq!(batched.get_action_explored(&board, Player::Red), (0, false));
}

#[test]
fn minimax_agents_stop_the_loss() {
    let evaluator = SimpleEval::new();
    let board = position(&[0, 1, 0, 1, 0]);
    let agent = MinimaxAgent::new(&evaluator, 2);
    let batched = BatchMinimaxAgent::new(&evaluator, 2, 1);
    for _ in 0..5 {
        assert_eq!(agent.get_action(&board, Player::Yellow), 0);
        assert_eq!(batched.get_action(&board, Player::Yellow), 0);
    }
}

#[test]
fn places_by_value() {
    let values = vec![INFINITY, 3, -INFINITY, INFINITY, 0];
    assert_eq!(places_of(&values, INFINITY), vec![0, 3]);
    assert_eq!(places_of(&values, -INFINITY), vec![2]);
    assert_eq!(places_of(&values, 7), vec![]);
    assert_eq!(open_places(&values), vec![1, 4]);
}

#[test]
fn policy_agent_takes_a_win_and_avoids_a_loss() {
    let evaluator = SimpleEval::new();
    let policy = Greedy::new();
    let agent = MinimaxPolicyAgent::new(&evaluator, &policy, 2);
    assert_eq!(agent.batch_depth, 0);
    let board = position(&[0, 1, 0, 1, 0, 1]);
    for _ in 0..10 {
        assert_eq!(agent.get_action_explored(&board, Player::Red), (0, false));
        assert_eq!(agent.get_action(&board, Player::Red), 0);
    }
    // Yellow must stop column 0; all other moves lose, so only one is open.
    let board = position(&[0, 1, 0, 1, 0]);
    for _ in 0..10 {
        assert_eq!(agent.get_action_explored(&board, Player::Yellow), (0, false));
    }
}

#[test]
fn policy_agent_choice_among_values() {
    let evaluator = SimpleEval::new();
    let greedy = Greedy::new();
    let agent = MinimaxPolicyAgent::new(&evaluator, &greedy, 2);
    // A winning move is taken, whatever else there is.
    assert_eq!(agent.choose_among(&vec![5, INFINITY, -INFINITY]), (1, false));
    // Without a win the policy picks among the open moves.
    assert_eq!(agent.choose_among(&vec![-INFINITY, 5, 9, -INFINITY, 2]), (2, false));
    // Where all is lost any move comes.
    let (i, explored) = agent.choose_among(&vec![-INFINITY, -INFINITY]);
    assert!(i < 2);
    assert!(!explored);
    // A policy that always explores marks the moves that are not the best.
    let explorer = EpsilonGreedy::new(1_000_000);
    let agent = MinimaxPolicyAgent::new(&evaluator, &explorer, 2);
    let values = vec![-INFINITY, 5, 9, -INFINITY, 2];
    let mut seen = [false; 5];
    for _ in 0..200 {
        let (i, explored) = agent.choose_among(&values);
        seen[i] = true;
        assert_eq!(explored, values[i] != 9);
    }
    assert_eq!(seen, [false, true, true, false, true]);
}

#[test]
fn policy_agent_with_a_policy_behind_a_pointer() {
    let evaluator = SimpleEval::new();
    let boxed: Box<dyn Policy> = Box::new(Greedy::new());
    let agent = MinimaxPolicyAgent::new(&evaluator, &*boxed, 2);
    let board = position(&[0, 1, 0, 1, 0, 1]);
    assert_eq!(agent.get_action(&board, Player::Red), 0);
}

#[test]
fn composite_agent_takes_the_win_first() {
    let evaluator = LinesEval::new();
    let agent = CompositeAgent::new(&evaluator, 2, 0, 4);
    assert_eq!(agent.depth, 2);
    assert_eq!(agent.batch_depth, 0);
    assert_eq!(agent.simple_depth, 4);
    let board = position(&[0, 1, 0, 1, 0, 1]);
    assert_eq!(agent.get_action(&board, Player::Red), 0);
    assert_eq!(agent.get_action_explored(&board, Player::Red), (0, false));
    // Yellow has to stop column 0.
    let board = position(&[0, 1, 0, 1, 0]);
    assert_eq!(agent.get_action(&board, Player::Yellow), 0);
}

#[test]
fn composite_agent_values_unclear_moves_with_its_own_evaluator() {
    let evaluator = LinesEval::new();
    let agent = CompositeAgent::new(&evaluator, 1, 0, 2);
    let board = Connect4::new();
    // One ply deep every move is unclear; the lines evaluator, seen from the
    // side of Yellow after the move, is 0 for all, so the first move comes.
    assert_eq!(agent.get_action(&board, Player::Red), 0);
}

#[test]
fn composite_agent_plays_a_lost_position() {
    let evaluator = SimpleEval::new();
    let agent = CompositeAgent::new(&evaluator, 2, 0, 2);
    // Yellow threatens columns 1 and 2 at once.
    let board = position(&[0, 1, 0, 1, 6, 1, 6, 2, 5, 2, 5, 2]);
    let action = agent.get_action(&board, Player::Red);
    assert_eq!(action, 0);
}

#[test]
fn agents_play_the_second_game() {
    let evaluator = SimpleEval::new();
    let mut board = Stack4::new();
    for a in [(0, 0), (0, 7), (1, 0), (1, 7), (2, 0), (2, 7)] {
        board.play_action(a);
    }
    let agent = MinimaxAgent::new(&evaluator, 2);
    assert_eq!(agent.get_action(&board, Player::Red), (3, 0));
    let composite = CompositeAgent::new(&evaluator, 1, 0, 2);
    assert_eq!(composite.get_action(&board, Player::Red), (3, 0));
    let policy = Greedy::new();
    let explorer = MinimaxPolicyAgent::new(&evaluator, &policy, 2);
    assert_eq!(explorer.get_action_explored(&board, Player::Red), ((3, 0), false));
}
