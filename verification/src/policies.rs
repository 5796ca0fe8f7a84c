//! Policies: which of several valued candidates to take.

use vstd::prelude::*;
use crate::random::random_index;

verus! {

/// Whether no value of `values` is greater than the one at `i`.
pub open spec fn is_best(values: Seq<i64>, i: int) -> bool {
    &&& 0 <= i < values.len()
    &&& forall|j: int| 0 <= j < values.len() ==> #[trigger] values[j] <= values[i]
}

/// The greatest of the first `n` values, which is `first` for `n` below 2.
pub open spec fn greatest(values: Seq<i64>, n: int) -> i64
    decreases n,
{
    if n <= 1 {
        values[0]
    } else if values[n - 1] > greatest(values, n - 1) {
        values[n - 1]
    } else {
        greatest(values, n - 1)
    }
}

/// The greatest of the first `n` values is one of them and none of them is
/// greater.
pub proof fn lemma_greatest(values: Seq<i64>, n: int)
    requires
        1 <= n <= values.len(),
    ensures
        forall|j: int| 0 <= j < n ==> #[trigger] values[j] <= greatest(values, n),
        exists|j: int| 0 <= j < n && values[j] == greatest(values, n),
    decreases n,
{
    if n > 1 {
        lemma_greatest(values, n - 1);
        let j = choose|j: int| 0 <= j < n - 1 && values[j] == greatest(values, n - 1);
        if values[n - 1] > greatest(values, n - 1) {
            assert(values[n - 1] == greatest(values, n));
        } else {
            assert(values[j] == greatest(values, n));
        }
    } else {
        assert(values[0] == greatest(values, n));
    }
}

/// The greatest of `values`.
pub fn max_value(values: &Vec<i64>) -> (mx: i64)
    requires
        values@.len() > 0,
    ensures
        mx == greatest(values@, values@.len() as int),
        forall|j: int| 0 <= j < values@.len() ==> #[trigger] values@[j] <= mx,
        exists|j: int| 0 <= j < values@.len() && values@[j] == mx,
{
    let mut mx = values[0];
    let mut i: usize = 1;
    while i < values.len()
        invariant
            1 <= i <= values@.len(),
            mx == greatest(values@, i as int),
        decreases values@.len() - i,
    {
        if values[i] > mx {
            mx = values[i];
        }
        i += 1;
    }
    proof {
        lemma_greatest(values@, values@.len() as int);
    }
    mx
}

/// The indices at which `values` is greatest, in ascending order.
pub fn best_indices(values: &Vec<i64>) -> (best: Vec<usize>)
    requires
        values@.len() > 0,
    ensures
        best@.len() > 0,
        forall|k: int| 0 <= k < best@.len() ==> is_best(values@, #[trigger] best@[k] as int),
        forall|k: int, l: int| 0 <= k < l < best@.len() ==> #[trigger] best@[k] < #[trigger] best@[l],
        forall|i: int| is_best(values@, i) ==> #[trigger] best@.contains(i as usize),
{
    let mx = max_value(values);
    let mut best: Vec<usize> = Vec::new();
    let mut i: usize = 0;
    while i < values.len()
        invariant
            i <= values@.len(),
            forall|j: int| 0 <= j < values@.len() ==> #[trigger] values@[j] <= mx,
            exists|j: int| 0 <= j < values@.len() && values@[j] == mx,
            forall|k: int|
                0 <= k < best@.len() ==> #[trigger] best@[k] < i && values@[best@[k] as int] == mx,
            forall|k: int, l: int|
                0 <= k < l < best@.len() ==> #[trigger] best@[k] < #[trigger] best@[l],
            forall|j: int|
                0 <= j < i && values@[j] == mx ==> #[trigger] best@.contains(j as usize),
        decreases values@.len() - i,
    {
        if values[i] == mx {
            let ghost before = best@;
            best.push(i);
            proof {
                assert(best@[before.len() as int] == i);
                assert forall|j: int| 0 <= j < i + 1 && values@[j] == mx implies #[trigger] best@.contains(
                    j as usize,
                ) by {
                    if j < i {
                        assert(before.contains(j as usize));
                        let k = choose|k: int| 0 <= k < before.len() && before[k] == j as usize;
                        assert(best@[k] == j as usize);
                    }
                }
            }
        }
        i += 1;
    }
    proof {
        let j = choose|j: int| 0 <= j < values@.len() && values@[j] == mx;
        assert(best@.contains(j as usize));
        assert forall|i: int| is_best(values@, i) implies #[trigger] best@.contains(i as usize) by {
            assert(values@[j] <= values@[i]);
        }
    }
    best
}

/// An index at which `values` is greatest; where several are, one of them
/// by chance.
pub fn pick_best(values: &Vec<i64>) -> (i: usize)
    requires
        values@.len() > 0,
    ensures
        is_best(values@, i as int),
{
    let best = best_indices(values);
    best[random_index(best.len())]
}

/// A rule that picks one of several candidates by their values.
pub trait Policy {
    /// The index of the chosen value.
    fn pick(&self, action_values: &Vec<i64>) -> (i: usize)
        requires
            action_values@.len() > 0,
        ensures
            i < action_values@.len(),
    ;
}

/// Takes a candidate of the greatest value.
#[derive(Clone, Copy, Debug)]
pub struct Greedy {}

impl Greedy {
    /// The greedy policy.
    pub fn new() -> Greedy {
        Greedy {  }
    }
}

impl Policy for Greedy {
    fn pick(&self, action_values: &Vec<i64>) -> (i: usize)
        ensures
            is_best(action_values@, i as int),
    {
        pick_best(action_values)
    }
}

/// The number of parts in which the rate of exploring is counted.
pub const RATE_SCALE: u32 = 1000000;

/// Explores with a given rate: takes any candidate by chance, and otherwise
/// a candidate of the greatest value. The rate is counted in millionths.
#[derive(Clone, Copy, Debug)]
pub struct EpsilonGreedy {
    pub epsilon: u32,
}

impl EpsilonGreedy {
    /// A policy that explores in `epsilon` of a million choices.
    pub fn new(epsilon: u32) -> (p: EpsilonGreedy)
        ensures
            p.epsilon == epsilon,
    {
        EpsilonGreedy { epsilon }
    }

    /// The choice once the two draws are made: `draw` below the rate takes
    /// the candidate `any`, every other draw a candidate of the greatest
    /// value.
    pub fn pick_with(&self, action_values: &Vec<i64>, draw: u32, any: usize) -> (i: usize)
        requires
            action_values@.len() > 0,
            any < action_values@.len(),
        ensures
            draw < self.epsilon ==> i == any,
            draw >= self.epsilon ==> is_best(action_values@, i as int),
    {
        if draw < self.epsilon {
            any
        } else {
            pick_best(action_values)
        }
    }
}

impl Policy for EpsilonGreedy {
    fn pick(&self, action_values: &Vec<i64>) -> (i: usize)
        ensures
            self.epsilon == 0 ==> is_best(action_values@, i as int),
    {
        let draw = random_index(RATE_SCALE as usize) as u32;
        let any = random_index(action_values.len());
        self.pick_with(action_values, draw, any)
    }
}

} // verus!
