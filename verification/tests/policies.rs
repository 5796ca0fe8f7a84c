use gamesolver::policies::{best_indices, max_value, pick_best, EpsilonGreedy, Greedy, Policy};

#[test]
fn max_value_and_where_it_stands() {
    let values = vec![3, -1, 7, 7, 0, 7];
    assert_eq!(max_value(&values), 7);
    assert_eq!(best_indices(&values), vec![2, 3, 5]);
    assert_eq!(max_value(&vec![-5]), -5);
    assert_eq!(best_indices(&vec![-5]), vec![0]);
    assert_eq!(best_indices(&vec![i64::MAX, i64::MIN + 1, i64::MAX]), vec![0, 2]);
}

#[test]
fn greedy_takes_a_greatest_value() {
    let policy = Greedy::new();
    let values = vec![3, -1, 7, 7, 0, 7];
    let mut seen = [false; 6];
    for _ in 0..200 {
        let i = policy.pick(&values);
        assert_eq!(values[i], 7);
        seen[i] = true;
        let j = pick_best(&values);
        assert_eq!(values[j], 7);
    }
    // Ties are broken by chance: in 200 draws each of the three comes up.
    assert_eq!(seen, [false, false, true, true, false, true]);
    assert_eq!(policy.pick(&vec![1, 2, 3]), 2);
}

#[test]
fn epsilon_greedy_without_exploring_is_greedy() {
    let policy = EpsilonGreedy::new(0);
    let values = vec![1, 9, 2];
    for _ in 0..50 {
        assert_eq!(policy.pick(&values), 1);
    }
}

#[test]
fn epsilon_greedy_that_always_explores_takes_anything() {
    let policy = EpsilonGreedy::new(1_000_000);
    let values = vec![1, 9, 2];
    let mut seen = [false; 3];
    for _ in 0..200 {
        seen[policy.pick(&values)] = true;
    }
    assert_eq!(seen, [true, true, true]);
}

#[test]
fn epsilon_greedy_once_the_draws_are_made() {
    let policy = EpsilonGreedy::new(100_000);
    let values = vec![1, 9, 2];
    assert_eq!(policy.pick_with(&values, 99_999, 2), 2);
    assert_eq!(policy.pick_with(&values, 0, 0), 0);
    assert_eq!(policy.pick_with(&values, 100_000, 2), 1);
    assert_eq!(policy.pick_with(&values, 999_999, 0), 1);
    assert_eq!(policy.epsilon, 100_000);
}
