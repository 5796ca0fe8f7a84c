//! The search: negamax, its alpha-beta form with a transposition table, and
//! the form that values the leaves in one batch.

use vstd::prelude::*;
use vstd::arithmetic::div_mod::lemma_mul_mod_noop_left;
use std::collections::HashMap;
use crate::evaluators::{Evaluator, INFINITY};
use crate::games::{Game, GameState, Player};
use crate::policies::{is_best, pick_best};

verus! {

/// Number of slots of a transposition table. A prime, and coprime with
/// `MULTIPLIER`.
pub const TABLE_SIZE: usize = 104723;

/// The number by which a board word is multiplied to find its slot.
pub const MULTIPLIER: usize = 48619;

/// The slot under which a board word is filed: the word times `MULTIPLIER`,
/// modulo `TABLE_SIZE`.
pub open spec fn slot_of(board: u128) -> int {
    (board * 48619) % 104723
}

/// The slot under which a board word is filed. The word is reduced before
/// it is multiplied, so that the product fits the machine word.
pub fn hash(board: u128) -> (slot: usize)
    ensures
        slot == slot_of(board),
        slot < TABLE_SIZE,
{
    proof {
        lemma_mul_mod_noop_left(board as int, 48619, 104723);
    }
    let reduced: u128 = board % (TABLE_SIZE as u128);
    ((reduced * (MULTIPLIER as u128)) % (TABLE_SIZE as u128)) as usize
}

/// A table of fixed size in which entries are filed under a board word. A
/// slot holds one entry; a later entry for the same slot replaces it.
pub struct TranspositionTable<T> {
    pub table: Vec<Option<(u128, T)>>,
}

impl<T: Copy> TranspositionTable<T> {
    /// The table has all its slots.
    pub open spec fn wf(&self) -> bool {
        self.table@.len() == TABLE_SIZE
    }

    /// What the table holds for `board`: the entry in the slot of `board`,
    /// if it was filed under that very word.
    pub open spec fn lookup(&self, board: u128) -> Option<T> {
        match self.table@[slot_of(board)] {
            Some((b, val)) => if b == board {
                Some(val)
            } else {
                None
            },
            None => None,
        }
    }

    /// An empty table.
    pub fn new() -> (tt: TranspositionTable<T>)
        ensures
            tt.wf(),
            forall|i: int| 0 <= i < TABLE_SIZE ==> (#[trigger] tt.table@[i]).is_none(),
            forall|board: u128| (#[trigger] tt.lookup(board)).is_none(),
    {
        let mut table: Vec<Option<(u128, T)>> = Vec::with_capacity(TABLE_SIZE);
        let mut i: usize = 0;
        while i < TABLE_SIZE
            invariant
                i <= TABLE_SIZE,
                table@.len() == i,
                forall|j: int| 0 <= j < i ==> (#[trigger] table@[j]).is_none(),
            decreases TABLE_SIZE - i,
        {
            table.push(None);
            i += 1;
        }
        TranspositionTable { table }
    }

    /// The entry that was filed under `board`, unless none was or another
    /// entry has taken its slot since.
    pub fn get(&self, board: u128) -> (entry: Option<T>)
        requires
            self.wf(),
        ensures
            entry == self.lookup(board),
    {
        match &self.table[hash(board)] {
            Some((b, val)) => {
                if board == *b {
                    Some(*val)
                } else {
                    None
                }
            },
            None => None,
        }
    }

    /// Files `value` under `board`, in place of whatever its slot held.
    pub fn set(&mut self, board: u128, value: T)
        requires
            old(self).wf(),
        ensures
            final(self).wf(),
            final(self).table@ == old(self).table@.update(slot_of(board), Some((board, value))),
            final(self).lookup(board) == Some(value),
    {
        let slot = hash(board);
        self.table[slot] = Some((board, value));
    }
}

/// The negamax value of `board` to `player`, looking `depth` plies ahead:
/// the evaluator's value where the game is over or no ply is left, and
/// otherwise the best of the negated values of the positions after each
/// legal move, seen by the other player.
pub open spec fn negamax_value<G: Game, E: Evaluator<G>>(
    e: E,
    board: G,
    depth: nat,
    player: Player,
) -> int
    decreases depth, 1nat, 0nat,
{
    if board.state() != GameState::InProgress || depth == 0 {
        e.value_of(board, player)
    } else {
        best_reply(e, board, depth, player, board.moves().len())
    }
}

/// The value to `player` of playing the legal move number `i` on `board`
/// with `depth` plies to look ahead, that move included.
pub open spec fn reply_value<G: Game, E: Evaluator<G>>(
    e: E,
    board: G,
    depth: nat,
    player: Player,
    i: int,
) -> int
    decreases depth, 0nat, 0nat,
{
    if depth == 0 {
        0
    } else {
        -negamax_value(e, board.after(board.moves()[i]), (depth - 1) as nat, player.other())
    }
}

/// The best of the values of the first `n` legal moves on `board`, and
/// `-INFINITY` if `n` is 0.
pub open spec fn best_reply<G: Game, E: Evaluator<G>>(
    e: E,
    board: G,
    depth: nat,
    player: Player,
    n: nat,
) -> int
    decreases depth, 0nat, n + 1,
{
    if n == 0 {
        -INFINITY
    } else {
        let rest = best_reply(e, board, depth, player, (n - 1) as nat);
        let this = reply_value(e, board, depth, player, n - 1);
        if this > rest {
            this
        } else {
            rest
        }
    }
}

/// Every negamax value lies between `-INFINITY` and `INFINITY`.
pub proof fn lemma_negamax_range<G: Game, E: Evaluator<G>>(
    e: E,
    board: G,
    depth: nat,
    player: Player,
)
    ensures
        -INFINITY <= negamax_value(e, board, depth, player) <= INFINITY,
    decreases depth, 1nat, 0nat,
{
    if board.state() != GameState::InProgress || depth == 0 {
        e.lemma_value_of(board, player);
    } else {
        lemma_best_reply_range(e, board, depth, player, board.moves().len());
    }
}

/// Every best reply lies between `-INFINITY` and `INFINITY`.
pub proof fn lemma_best_reply_range<G: Game, E: Evaluator<G>>(
    e: E,
    board: G,
    depth: nat,
    player: Player,
    n: nat,
)
    requires
        depth > 0,
    ensures
        -INFINITY <= best_reply(e, board, depth, player, n) <= INFINITY,
        n > 0 ==> -INFINITY <= reply_value(e, board, depth, player, n - 1) <= INFINITY,
    decreases depth, 0nat, n + 1,
{
    if n > 0 {
        lemma_best_reply_range(e, board, depth, player, (n - 1) as nat);
        let next = board.after(board.moves()[n - 1]);
        lemma_negamax_range(e, next, (depth - 1) as nat, player.other());
        assert(reply_value(e, board, depth, player, n - 1) == -negamax_value(
            e,
            next,
            (depth - 1) as nat,
            player.other(),
        ));
    }
}

/// Plain negamax: the value of `board` to `player`, looking `depth` plies
/// ahead. The board is played on and handed back as it was.
pub fn negamax<G: Game, E: Evaluator<G>>(
    board: &mut G,
    depth: u32,
    evaluator: &E,
    player: Player,
) -> (val: i64)
    where
        G::Action: Copy,
    requires
        old(board).valid(),
    ensures
        *final(board) == *old(board),
        val == negamax_value(*evaluator, *old(board), depth as nat, player),
        -INFINITY <= val <= INFINITY,
    decreases depth,
{
    proof {
        lemma_negamax_range(*evaluator, *board, depth as nat, player);
    }
    if board.game_state() != GameState::InProgress || depth == 0 {
        return evaluator.value(board, player);
    }
    let ghost start = *board;
    let actions = board.legal_actions();
    let mut val: i64 = -INFINITY;
    let mut i: usize = 0;
    while i < actions.len()
        invariant
            i <= actions@.len(),
            *board == start,
            start.valid(),
            start.state() == GameState::InProgress,
            actions@ == start.moves(),
            depth > 0,
            val == best_reply(*evaluator, start, depth as nat, player, i as nat),
            -INFINITY <= val <= INFINITY,
        decreases actions@.len() - i,
    {
        let action = actions[i];
        proof {
            assert(start.moves().contains(action));
            G::lemma_play_and_reverse(start, action);
            lemma_best_reply_range(*evaluator, start, depth as nat, player, (i + 1) as nat);
        }
        board.play_action(action);
        let v = -negamax(board, depth - 1, evaluator, player.opponent());
        board.reverse_last_action(action);
        if v > val {
            val = v;
        }
        i += 1;
    }
    val
}

/// The positions that lie exactly `depth` plies below `board`, in the order
/// in which the search meets them. Nothing lies below a finished game.
pub open spec fn leaves_of<G: Game>(board: G, depth: nat) -> Seq<G>
    decreases depth, 1nat, 0nat,
{
    if depth == 0 {
        seq![board]
    } else if board.state() != GameState::InProgress {
        Seq::empty()
    } else {
        leaves_below(board, depth, board.moves().len())
    }
}

/// The positions that lie `depth` plies below `board` and are reached
/// through one of its first `n` legal moves.
pub open spec fn leaves_below<G: Game>(board: G, depth: nat, n: nat) -> Seq<G>
    decreases depth, 0nat, n,
{
    if n == 0 || depth == 0 {
        Seq::empty()
    } else {
        leaves_below(board, depth, (n - 1) as nat) + leaves_of(
            board.after(board.moves()[n - 1]),
            (depth - 1) as nat,
        )
    }
}

/// All positions exactly `depth` plies below `board`; subtrees under a
/// finished game are skipped. The board is handed back as it was.
pub fn leafs<G: Game>(board: &mut G, depth: u32) -> (ret: Vec<G>)
    where
        G::Action: Copy,
    requires
        old(board).valid(),
    ensures
        *final(board) == *old(board),
        ret@ == leaves_of(*old(board), depth as nat),
    decreases depth,
{
    if depth == 0 {
        let mut ret: Vec<G> = Vec::new();
        ret.push(*board);
        assert(ret@ =~= seq![*board]);
        return ret;
    }
    if board.game_state() != GameState::InProgress {
        return Vec::new();
    }
    let ghost start = *board;
    let mut ret: Vec<G> = Vec::new();
    let actions = board.legal_actions();
    let mut i: usize = 0;
    while i < actions.len()
        invariant
            i <= actions@.len(),
            *board == start,
            start.valid(),
            start.state() == GameState::InProgress,
            actions@ == start.moves(),
            depth > 0,
            ret@ == leaves_below(start, depth as nat, i as nat),
        decreases actions@.len() - i,
    {
        let action = actions[i];
        proof {
            assert(start.moves().contains(action));
            G::lemma_play_and_reverse(start, action);
        }
        board.play_action(action);
        let mut below = leafs(board, depth - 1);
        ret.append(&mut below);
        board.reverse_last_action(action);
        i += 1;
    }
    ret
}

/// The player from whose side the leaves are valued when `player` searches
/// `depth` plies: `player` after an even number of plies, the opponent
/// after an odd number.
pub open spec fn leaf_side(player: Player, depth: nat) -> Player {
    if depth % 2 == 0 {
        player
    } else {
        player.other()
    }
}

/// Every entry of the map holds a position together with its value to
/// `side`.
pub open spec fn leaf_values_hold<G: Game, E: Evaluator<G>>(
    values: Map<u128, (G, i64)>,
    e: E,
    side: Player,
) -> bool {
    forall|k: u128| #[trigger]
        values.contains_key(k) ==> values[k].1 == e.value_of(values[k].0, side)
}

/// Negamax without pruning in which a leaf's value is looked up under its
/// board word. A leaf that the map does not hold is valued on the spot.
fn negamax_from_hashmap<G: Game, E: Evaluator<G>>(
    board: &mut G,
    depth: u32,
    evaluator: &E,
    player: Player,
    hmap: &HashMap<u128, (G, i64)>,
) -> (val: i64)
    where
        G::Action: Copy,
    requires
        old(board).valid(),
        leaf_values_hold(hmap@, *evaluator, leaf_side(player, depth as nat)),
    ensures
        *final(board) == *old(board),
        val == negamax_value(*evaluator, *old(board), depth as nat, player),
        -INFINITY <= val <= INFINITY,
    decreases depth,
{
    broadcast use vstd::std_specs::hash::group_hash_axioms;

    proof {
        lemma_negamax_range(*evaluator, *board, depth as nat, player);
    }
    if board.game_state() != GameState::InProgress {
        return evaluator.value(board, player);
    }
    if depth == 0 {
        let id = board.uid();
        return match hmap.get(&id) {
            Some(entry) => {
                if entry.0.same_as(board) {
                    entry.1
                } else {
                    evaluator.value(board, player)
                }
            },
            None => evaluator.value(board, player),
        };
    }
    let ghost start = *board;
    let actions = board.legal_actions();
    let mut val: i64 = -INFINITY;
    let mut i: usize = 0;
    while i < actions.len()
        invariant
            i <= actions@.len(),
            *board == start,
            start.valid(),
            start.state() == GameState::InProgress,
            actions@ == start.moves(),
            depth > 0,
            leaf_values_hold(hmap@, *evaluator, leaf_side(player, depth as nat)),
            val == best_reply(*evaluator, start, depth as nat, player, i as nat),
            -INFINITY <= val <= INFINITY,
        decreases actions@.len() - i,
    {
        let action = actions[i];
        proof {
            assert(start.moves().contains(action));
            G::lemma_play_and_reverse(start, action);
            lemma_best_reply_range(*evaluator, start, depth as nat, player, (i + 1) as nat);
            assert(leaf_side(player.other(), (depth - 1) as nat) == leaf_side(player, depth as nat));
        }
        board.play_action(action);
        let v = -negamax_from_hashmap(board, depth - 1, evaluator, player.opponent(), hmap);
        board.reverse_last_action(action);
        if v > val {
            val = v;
        }
        i += 1;
    }
    val
}

/// Negamax that values all leaves in one call of the evaluator: the
/// positions `depth` plies below `board` are collected, valued together
/// from the side that is to be seen at that depth, and the tree is then
/// walked without pruning. The value is that of plain negamax.
pub fn batch_negamax<G: Game, E: Evaluator<G>>(
    board: &G,
    depth: u32,
    evaluator: &E,
    player: Player,
) -> (val: i64)
    where
        G::Action: Copy,
    requires
        board.valid(),
    ensures
        val == negamax_value(*evaluator, *board, depth as nat, player),
        -INFINITY <= val <= INFINITY,
{
    broadcast use vstd::std_specs::hash::group_hash_axioms;

    let mut position = *board;
    let leaves = leafs(&mut position, depth);
    let side = if depth % 2 == 0 {
        player
    } else {
        player.opponent()
    };
    let leaf_vals = evaluator.values(&leaves, side);
    let mut vals: HashMap<u128, (G, i64)> = HashMap::new();
    let mut i: usize = 0;
    while i < leaves.len()
        invariant
            i <= leaves@.len(),
            leaf_vals@.len() == leaves@.len(),
            forall|j: int|
                0 <= j < leaves@.len() ==> #[trigger] leaf_vals@[j] == evaluator.value_of(
                    leaves@[j],
                    side,
                ),
            leaf_values_hold(vals@, *evaluator, side),
        decreases leaves@.len() - i,
    {
        let leaf = leaves[i];
        vals.insert(leaf.uid(), (leaf, leaf_vals[i]));
        i += 1;
    }
    negamax_from_hashmap(&mut position, depth, evaluator, player, &vals)
}

/// What a search has found out about a position: `value` is at least the
/// negamax value of `board` to `player` at `depth` plies.
pub struct Bound<G: Game> {
    pub board: G,
    pub depth: u32,
    pub player: Player,
    pub value: i64,
}

impl<G: Game> Clone for Bound<G> {
    fn clone(&self) -> (out: Self)
        ensures
            out == *self,
    {
        *self
    }
}

impl<G: Game> Copy for Bound<G> {

}

/// Every entry of the table is an upper bound of the negamax value that it
/// speaks of, under the evaluator `e`.
pub open spec fn bounds_hold<G: Game, E: Evaluator<G>>(
    tt: TranspositionTable<Bound<G>>,
    e: E,
) -> bool {
    &&& tt.wf()
    &&& forall|i: int|
        0 <= i < tt.table@.len() ==> match #[trigger] tt.table@[i] {
            Some((_, bound)) => bound.value >= negamax_value(
                e,
                bound.board,
                bound.depth as nat,
                bound.player,
            ),
            None => true,
        }
}

/// What a search with the window from `alpha` to `beta` says of the true
/// value `v` by returning `r`: inside the window `r` is the value, at or
/// below `alpha` it is an upper bound, at or above `beta` a lower bound.
pub open spec fn within_window(r: int, alpha: int, beta: int, v: int) -> bool {
    &&& r <= alpha ==> v <= r
    &&& alpha < r < beta ==> v == r
    &&& r >= beta ==> r <= v
}

/// The best reply among more moves is no worse.
pub proof fn lemma_best_reply_grows<G: Game, E: Evaluator<G>>(
    e: E,
    board: G,
    depth: nat,
    player: Player,
    n: nat,
    m: nat,
)
    requires
        n <= m,
    ensures
        best_reply(e, board, depth, player, n) <= best_reply(e, board, depth, player, m),
    decreases m,
{
    if n < m {
        lemma_best_reply_grows(e, board, depth, player, n, (m - 1) as nat);
    }
}

/// Negamax with alpha-beta pruning inside the window from `alpha` to
/// `beta`. A bound that the table holds for this very position, depth and
/// player tightens `beta`; a node whose moves were all searched files its
/// result as a new bound.
fn _abnegamax<G: Game, E: Evaluator<G>>(
    board: &mut G,
    alpha: i64,
    beta: i64,
    depth: u32,
    batch_depth: u32,
    evaluator: &E,
    player: Player,
    tt: &mut TranspositionTable<Bound<G>>,
) -> (val: i64)
    where
        G::Action: Copy,
    requires
        old(board).valid(),
        bounds_hold(*old(tt), *evaluator),
        -INFINITY <= alpha < beta <= INFINITY,
    ensures
        *final(board) == *old(board),
        bounds_hold(*final(tt), *evaluator),
        -INFINITY <= val <= INFINITY,
        within_window(
            val as int,
            alpha as int,
            beta as int,
            negamax_value(*evaluator, *old(board), depth as nat, player),
        ),
    decreases depth,
{
    let ghost start = *board;
    let ghost truth = negamax_value(*evaluator, start, depth as nat, player);
    proof {
        lemma_negamax_range(*evaluator, start, depth as nat, player);
    }
    if board.game_state() != GameState::InProgress || depth == 0 {
        return evaluator.value(board, player);
    }
    let id = board.uid();
    let mut high = beta;
    match tt.get(id) {
        Some(bound) => {
            if bound.depth == depth && bound.player == player && bound.board.same_as(board) {
                assert(tt.table@[slot_of(id)].is_some());
                if high > bound.value {
                    high = bound.value;
                    if alpha >= high {
                        return high;
                    }
                }
            }
        },
        None => {},
    }
    let actions = board.legal_actions();
    let mut best: i64 = -INFINITY;
    let mut low = alpha;
    let mut cut = false;
    let mut i: usize = 0;
    while i < actions.len() && !cut
        invariant
            i <= actions@.len(),
            *board == start,
            start.valid(),
            start.state() == GameState::InProgress,
            actions@ == start.moves(),
            depth > 0,
            bounds_hold(*tt, *evaluator),
            -INFINITY <= alpha < high <= beta <= INFINITY,
            high < beta ==> truth <= high,
            -INFINITY <= best <= INFINITY,
            low == (if best > alpha {
                best
            } else {
                alpha
            }),
            cut <==> low >= high,
            cut ==> best <= best_reply(*evaluator, start, depth as nat, player, i as nat),
            !cut && best <= alpha ==> best_reply(*evaluator, start, depth as nat, player, i as nat)
                <= best,
            !cut && best > alpha ==> best_reply(*evaluator, start, depth as nat, player, i as nat)
                == best,
        decreases actions@.len() - i,
    {
        let action = actions[i];
        proof {
            assert(start.moves().contains(action));
            G::lemma_play_and_reverse(start, action);
            lemma_best_reply_range(*evaluator, start, depth as nat, player, (i + 1) as nat);
        }
        board.play_action(action);
        let v = if depth <= batch_depth {
            -batch_negamax(board, depth - 1, evaluator, player.opponent())
        } else {
            -_abnegamax(
                board,
                -high,
                -low,
                depth - 1,
                batch_depth,
                evaluator,
                player.opponent(),
                tt,
            )
        };
        board.reverse_last_action(action);
        if v > best {
            best = v;
        }
        if best > low {
            low = best;
        }
        if low >= high {
            cut = true;
        }
        i += 1;
    }
    proof {
        lemma_best_reply_grows(
            *evaluator,
            start,
            depth as nat,
            player,
            i as nat,
            actions@.len() as nat,
        );
    }
    if !cut {
        tt.set(id, Bound { board: *board, depth, player, value: best });
    }
    best
}

/// Negamax with alpha-beta pruning, a transposition table, and, from
/// `batch_depth` plies down, leaves that are valued in one batch. Neither
/// the pruning nor the table nor the batches change the value: it is that of
/// plain negamax. Without a table of the caller's the search uses a fresh
/// one.
pub fn abnegamax<G: Game, E: Evaluator<G>>(
    board: &G,
    depth: u32,
    batch_depth: u32,
    evaluator: &E,
    player: Player,
    tt: Option<&mut TranspositionTable<Bound<G>>>,
) -> (val: i64)
    where
        G::Action: Copy,
    requires
        board.valid(),
        match tt {
            Some(t) => bounds_hold(*t, *evaluator),
            None => true,
        },
    ensures
        val == negamax_value(*evaluator, *board, depth as nat, player),
        -INFINITY <= val <= INFINITY,
        match tt {
            Some(t) => bounds_hold(*final(t), *evaluator),
            None => true,
        },
{
    proof {
        lemma_negamax_range(*evaluator, *board, depth as nat, player);
    }
    let mut position = *board;
    match tt {
        Some(t) => _abnegamax(
            &mut position,
            -INFINITY,
            INFINITY,
            depth,
            batch_depth,
            evaluator,
            player,
            t,
        ),
        None => {
            let mut fresh = TranspositionTable::new();
            _abnegamax(
                &mut position,
                -INFINITY,
                INFINITY,
                depth,
                batch_depth,
                evaluator,
                player,
                &mut fresh,
            )
        },
    }
}

/// The best reply is the value of one of the moves, and no move has a
/// greater value.
pub proof fn lemma_best_reply_is_greatest<G: Game, E: Evaluator<G>>(
    e: E,
    board: G,
    depth: nat,
    player: Player,
    n: nat,
)
    ensures
        forall|j: int|
            0 <= j < n ==> #[trigger] reply_value(e, board, depth, player, j) <= best_reply(
                e,
                board,
                depth,
                player,
                n,
            ),
        n > 0 ==> exists|j: int|
            0 <= j < n && #[trigger] reply_value(e, board, depth, player, j) == best_reply(
                e,
                board,
                depth,
                player,
                n,
            ),
    decreases n,
{
    if n > 0 {
        lemma_best_reply_is_greatest(e, board, depth, player, (n - 1) as nat);
        let this = reply_value(e, board, depth, player, n - 1);
        let rest = best_reply(e, board, depth, player, (n - 1) as nat);
        if n == 1 {
            if depth > 0 {
                lemma_best_reply_range(e, board, depth, player, n);
            }
            assert(this == best_reply(e, board, depth, player, n)) by {
                if depth == 0 {
                    assert(this == 0);
                }
            }
        } else if this > rest {
            assert(this == best_reply(e, board, depth, player, n));
        } else {
            let j = choose|j: int|
                0 <= j < n - 1 && #[trigger] reply_value(e, board, depth, player, j) == rest;
            assert(reply_value(e, board, depth, player, j) == best_reply(e, board, depth, player, n));
        }
    }
}

/// The legal moves of `board` and the value to `player` of each, `depth`
/// plies deep, the move included. The values are those of plain negamax,
/// found with pruning, the table, and batches from `batch_depth` down.
pub fn reply_values<G: Game, E: Evaluator<G>>(
    board: &G,
    depth: u32,
    batch_depth: u32,
    evaluator: &E,
    player: Player,
    tt: &mut TranspositionTable<Bound<G>>,
) -> (r: (Vec<G::Action>, Vec<i64>))
    where
        G::Action: Copy,
    requires
        board.valid(),
        board.state() == GameState::InProgress,
        depth >= 1,
        bounds_hold(*old(tt), *evaluator),
    ensures
        bounds_hold(*final(tt), *evaluator),
        r.0@ == board.moves(),
        r.1@.len() == r.0@.len(),
        forall|i: int|
            0 <= i < r.1@.len() ==> #[trigger] r.1@[i] == reply_value(
                *evaluator,
                *board,
                depth as nat,
                player,
                i,
            ),
        forall|i: int| 0 <= i < r.1@.len() ==> -INFINITY <= #[trigger] r.1@[i] <= INFINITY,
{
    let mut position = *board;
    let actions = position.legal_actions();
    let mut values: Vec<i64> = Vec::with_capacity(actions.len());
    let mut i: usize = 0;
    while i < actions.len()
        invariant
            i <= actions@.len(),
            position == *board,
            board.valid(),
            board.state() == GameState::InProgress,
            depth >= 1,
            actions@ == board.moves(),
            bounds_hold(*tt, *evaluator),
            values@.len() == i,
            forall|j: int|
                0 <= j < i ==> #[trigger] values@[j] == reply_value(
                    *evaluator,
                    *board,
                    depth as nat,
                    player,
                    j,
                ),
            forall|j: int| 0 <= j < i ==> -INFINITY <= #[trigger] values@[j] <= INFINITY,
        decreases actions@.len() - i,
    {
        let action = actions[i];
        proof {
            assert(board.moves().contains(action));
            G::lemma_play_and_reverse(*board, action);
        }
        position.play_action(action);
        let v = -abnegamax(
            &position,
            depth - 1,
            batch_depth,
            evaluator,
            player.opponent(),
            Some(&mut *tt),
        );
        position.reverse_last_action(action);
        values.push(v);
        i += 1;
    }
    (actions, values)
}

/// Whether `action` is a best move on `board`: it is legal, and playing it
/// is worth the negamax value of `board` to `player`.
pub open spec fn is_best_action<G: Game, E: Evaluator<G>>(
    e: E,
    board: G,
    depth: nat,
    player: Player,
    action: G::Action,
) -> bool {
    exists|i: int|
        0 <= i < board.moves().len() && board.moves()[i] == action && #[trigger] reply_value(
            e,
            board,
            depth,
            player,
            i,
        ) == negamax_value(e, board, depth, player)
}

/// A move of the greatest value is a best move.
pub proof fn lemma_greatest_reply_is_best<G: Game, E: Evaluator<G>>(
    e: E,
    board: G,
    depth: nat,
    player: Player,
    values: Seq<i64>,
    i: int,
)
    requires
        board.state() == GameState::InProgress,
        depth >= 1,
        values.len() == board.moves().len(),
        forall|j: int|
            0 <= j < values.len() ==> #[trigger] values[j] == reply_value(e, board, depth, player, j),
        is_best(values, i),
    ensures
        is_best_action(e, board, depth, player, board.moves()[i]),
        values[i] == negamax_value(e, board, depth, player),
{
    let n = board.moves().len();
    lemma_best_reply_is_greatest(e, board, depth, player, n);
    let j = choose|j: int|
        0 <= j < n && #[trigger] reply_value(e, board, depth, player, j) == best_reply(
            e,
            board,
            depth,
            player,
            n,
        );
    assert(values[j] <= values[i]);
    assert(reply_value(e, board, depth, player, i) == negamax_value(e, board, depth, player));
}

/// A best move for `player` on `board`, found by alpha-beta negamax; where
/// several moves are best, one of them by chance.
pub fn abnegamax_best_action<G: Game, E: Evaluator<G>>(
    board: &G,
    depth: u32,
    evaluator: &E,
    player: Player,
) -> (action: G::Action)
    where
        G::Action: Copy,
    requires
        board.valid(),
        board.state() == GameState::InProgress,
        depth >= 1,
    ensures
        board.moves().contains(action),
        is_best_action(*evaluator, *board, depth as nat, player, action),
{
    batch_abnegamax_best_action(board, depth, 0, evaluator, player)
}

/// A best move for `player` on `board`, found by negamax that values its
/// leaves in batches; where several moves are best, one of them by chance.
pub fn batch_negamax_best_action<G: Game, E: Evaluator<G>>(
    board: &G,
    depth: u32,
    evaluator: &E,
    player: Player,
) -> (action: G::Action)
    where
        G::Action: Copy,
    requires
        board.valid(),
        board.state() == GameState::InProgress,
        depth >= 1,
    ensures
        board.moves().contains(action),
        is_best_action(*evaluator, *board, depth as nat, player, action),
{
    let mut position = *board;
    let actions = position.legal_actions();
    let mut values: Vec<i64> = Vec::with_capacity(actions.len());
    let mut i: usize = 0;
    while i < actions.len()
        invariant
            i <= actions@.len(),
            position == *board,
            board.valid(),
            board.state() == GameState::InProgress,
            depth >= 1,
            actions@ == board.moves(),
            values@.len() == i,
            forall|j: int|
                0 <= j < i ==> #[trigger] values@[j] == reply_value(
                    *evaluator,
                    *board,
                    depth as nat,
                    player,
                    j,
                ),
        decreases actions@.len() - i,
    {
        let action = actions[i];
        proof {
            assert(board.moves().contains(action));
            G::lemma_play_and_reverse(*board, action);
        }
        position.play_action(action);
        let v = -batch_negamax(&position, depth - 1, evaluator, player.opponent());
        position.reverse_last_action(action);
        values.push(v);
        i += 1;
    }
    proof {
        G::lemma_in_progress_can_move(*board);
    }
    let best = pick_best(&values);
    proof {
        lemma_greatest_reply_is_best(*evaluator, *board, depth as nat, player, values@, best as int);
    }
    actions[best]
}

/// A best move for `player` on `board`, found by alpha-beta negamax that
/// values its leaves in batches from `batch_depth` plies down; where several
/// moves are best, one of them by chance.
pub fn batch_abnegamax_best_action<G: Game, E: Evaluator<G>>(
    board: &G,
    depth: u32,
    batch_depth: u32,
    evaluator: &E,
    player: Player,
) -> (action: G::Action)
    where
        G::Action: Copy,
    requires
        board.valid(),
        board.state() == GameState::InProgress,
        depth >= 1,
    ensures
        board.moves().contains(action),
        is_best_action(*evaluator, *board, depth as nat, player, action),
{
    let mut tt = TranspositionTable::new();
    let (actions, values) = reply_values(board, depth, batch_depth, evaluator, player, &mut tt);
    proof {
        G::lemma_in_progress_can_move(*board);
    }
    let best = pick_best(&values);
    proof {
        lemma_greatest_reply_is_best(*evaluator, *board, depth as nat, player, values@, best as int);
    }
    actions[best]
}

/// Whether the evaluator gives every position, seen from one side, the
/// negated value of the same position seen from the other side.
pub open spec fn antisymmetric<G: Game, E: Evaluator<G>>(e: E) -> bool {
    forall|board: G, player: Player| #[trigger]
        e.value_of(board, player) == -e.value_of(board, player.other())
}

/// Whether negamax gives `board`, seen from one side, the negated value of
/// the same position seen from the other side.
pub open spec fn mirrors<G: Game, E: Evaluator<G>>(
    e: E,
    board: G,
    depth: nat,
    player: Player,
) -> bool {
    negamax_value(e, board, depth, player) == -negamax_value(e, board, depth, player.other())
}

/// With an antisymmetric evaluator negamax is antisymmetric wherever the
/// evaluator decides: on finished games and at depth 0.
pub proof fn lemma_negamax_antisymmetric_at_leaves<G: Game, E: Evaluator<G>>(
    e: E,
    board: G,
    depth: nat,
    player: Player,
)
    requires
        antisymmetric::<G, E>(e),
        board.state() != GameState::InProgress || depth == 0,
    ensures
        mirrors(e, board, depth, player),
{
}

/// Where negamax is antisymmetric on every position after a move, it is
/// antisymmetric on the position before exactly if all moves are worth the
/// same: seen from the side that is not to move, negamax takes the best
/// move where the mover's worst would be due.
pub proof fn lemma_negamax_antisymmetric_at_nodes<G: Game, E: Evaluator<G>>(
    e: E,
    board: G,
    depth: nat,
    player: Player,
)
    requires
        board.state() == GameState::InProgress,
        depth > 0,
        board.moves().len() > 0,
        forall|i: int|
            0 <= i < board.moves().len() ==> mirrors(
                e,
                board.after(#[trigger] board.moves()[i]),
                (depth - 1) as nat,
                player.other(),
            ),
    ensures
        mirrors(e, board, depth, player) <==> forall|i: int, j: int|
            0 <= i < board.moves().len() && 0 <= j < board.moves().len() ==> reply_value(
                e,
                board,
                depth,
                player,
                i,
            ) == reply_value(e, board, depth, player, j),
{
    let n = board.moves().len();
    let other = player.other();
    assert(other.other() == player);
    lemma_best_reply_is_greatest(e, board, depth, player, n);
    lemma_best_reply_is_greatest(e, board, depth, other, n);
    assert forall|i: int| 0 <= i < n implies #[trigger] reply_value(e, board, depth, other, i)
        == -reply_value(e, board, depth, player, i) by {
        assert(mirrors(e, board.after(board.moves()[i]), (depth - 1) as nat, other));
    }
    let top = choose|j: int|
        0 <= j < n && #[trigger] reply_value(e, board, depth, player, j) == best_reply(
            e,
            board,
            depth,
            player,
            n,
        );
    let low = choose|j: int|
        0 <= j < n && #[trigger] reply_value(e, board, depth, other, j) == best_reply(
            e,
            board,
            depth,
            other,
            n,
        );
    if mirrors(e, board, depth, player) {
        assert forall|i: int, j: int| 0 <= i < n && 0 <= j < n implies reply_value(
            e,
            board,
            depth,
            player,
            i,
        ) == reply_value(e, board, depth, player, j) by {
            assert(reply_value(e, board, depth, player, i) <= reply_value(e, board, depth, player, top));
            assert(reply_value(e, board, depth, other, i) <= reply_value(e, board, depth, other, low));
            assert(reply_value(e, board, depth, player, j) <= reply_value(e, board, depth, player, top));
            assert(reply_value(e, board, depth, other, j) <= reply_value(e, board, depth, other, low));
        }
    }
    if forall|i: int, j: int|
        0 <= i < n && 0 <= j < n ==> reply_value(e, board, depth, player, i) == reply_value(
            e,
            board,
            depth,
            player,
            j,
        ) {
        assert(reply_value(e, board, depth, player, top) == reply_value(e, board, depth, player, low));
    }
}

/// Two evaluators that give every position the same value give every
/// search the same value.
pub proof fn lemma_negamax_by_values<G: Game, E: Evaluator<G>>(
    a: E,
    b: E,
    board: G,
    depth: nat,
    player: Player,
)
    requires
        forall|position: G, side: Player| #[trigger]
            a.value_of(position, side) == b.value_of(position, side),
    ensures
        negamax_value(a, board, depth, player) == negamax_value(b, board, depth, player),
    decreases depth, 1nat, 0nat,
{
    if board.state() != GameState::InProgress || depth == 0 {
        assert(a.value_of(board, player) == b.value_of(board, player));
    } else {
        lemma_best_reply_by_values(a, b, board, depth, player, board.moves().len());
    }
}

/// The same for the best of the first `n` replies.
pub proof fn lemma_best_reply_by_values<G: Game, E: Evaluator<G>>(
    a: E,
    b: E,
    board: G,
    depth: nat,
    player: Player,
    n: nat,
)
    requires
        depth > 0,
        forall|position: G, side: Player| #[trigger]
            a.value_of(position, side) == b.value_of(position, side),
    ensures
        best_reply(a, board, depth, player, n) == best_reply(b, board, depth, player, n),
    decreases depth, 0nat, n + 1,
{
    if n > 0 {
        lemma_best_reply_by_values(a, b, board, depth, player, (n - 1) as nat);
        let next = board.after(board.moves()[n - 1]);
        lemma_negamax_by_values(a, b, next, (depth - 1) as nat, player.other());
        assert(reply_value(a, board, depth, player, n - 1) == -negamax_value(
            a,
            next,
            (depth - 1) as nat,
            player.other(),
        ));
        assert(reply_value(b, board, depth, player, n - 1) == -negamax_value(
            b,
            next,
            (depth - 1) as nat,
            player.other(),
        ));
    }
}

} // verus!
