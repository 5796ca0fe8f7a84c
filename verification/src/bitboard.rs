//! Packed boards: one machine word, two bits per cell.
//!
//! Cell number `idx` occupies bits `2 * idx` and `2 * idx + 1`. The code `0`
//! stands for an empty cell, `1` and `2` for the two players.

use vstd::prelude::*;

verus! {

/// Number of cells a 128-bit board word can hold.
pub const CELLS: usize = 64;

/// The two-bit code stored in cell `idx` of `board`.
pub open spec fn cell(board: u128, idx: int) -> u8 {
    ((board >> ((2 * idx) as u128)) & 3u128) as u8
}

/// `board` with cell `idx` overwritten by the code `v`.
pub open spec fn with_cell(board: u128, idx: int, v: u8) -> u128 {
    (board & !(3u128 << ((2 * idx) as u128))) | ((v as u128) << ((2 * idx) as u128))
}

proof fn lemma_bv_code_bound(board: u128, s: u128)
    by (bit_vector)
    ensures
        (board >> s) & 3u128 <= 3u128,
{
}

proof fn lemma_bv_write_same(board: u128, s: u128, v: u128)
    by (bit_vector)
    requires
        s < 128,
        s % 2 == 0,
        v <= 3,
    ensures
        (((board & !(3u128 << s)) | (v << s)) >> s) & 3u128 == v,
{
}

proof fn lemma_bv_write_other(board: u128, s: u128, t: u128, v: u128)
    by (bit_vector)
    requires
        s < 128,
        t < 128,
        s % 2 == 0,
        t % 2 == 0,
        s != t,
        v <= 3,
    ensures
        (((board & !(3u128 << s)) | (v << s)) >> t) & 3u128 == (board >> t) & 3u128,
{
}

proof fn lemma_bv_write_undo(board: u128, s: u128, v: u128)
    by (bit_vector)
    requires
        s < 128,
        v <= 3,
        (board >> s) & 3u128 == 0,
    ensures
        (((board & !(3u128 << s)) | (v << s)) & !(3u128 << s)) | (0u128 << s) == board,
{
}

proof fn lemma_bv_zero(s: u128)
    by (bit_vector)
    ensures
        (0u128 >> s) & 3u128 == 0,
{
}

/// Every cell code is at most 3.
pub proof fn lemma_cell_bound(board: u128, idx: int)
    requires
        0 <= idx < 64,
    ensures
        cell(board, idx) <= 3,
{
    lemma_bv_code_bound(board, (2 * idx) as u128);
}

/// Every cell of the zero word is empty.
pub proof fn lemma_cell_zero(idx: int)
    requires
        0 <= idx < 64,
    ensures
        cell(0, idx) == 0,
{
    lemma_bv_zero((2 * idx) as u128);
}

/// Writing a cell changes that cell and no other.
pub proof fn lemma_with_cell(board: u128, idx: int, v: u8)
    requires
        0 <= idx < 64,
        v <= 3,
    ensures
        forall|j: int|
            0 <= j < 64 ==> #[trigger] cell(with_cell(board, idx, v), j) == (if j == idx {
                v
            } else {
                cell(board, j)
            }),
{
    assert forall|j: int| 0 <= j < 64 implies #[trigger] cell(with_cell(board, idx, v), j) == (if j
        == idx {
        v
    } else {
        cell(board, j)
    }) by {
        if j == idx {
            lemma_bv_write_same(board, (2 * idx) as u128, v as u128);
        } else {
            lemma_bv_write_other(board, (2 * idx) as u128, (2 * j) as u128, v as u128);
        }
    }
}

/// Clearing a cell that was written into an empty place restores the word.
pub proof fn lemma_with_cell_undo(board: u128, idx: int, v: u8)
    requires
        0 <= idx < 64,
        v <= 3,
        cell(board, idx) == 0,
    ensures
        with_cell(with_cell(board, idx, v), idx, 0) == board,
{
    lemma_bv_code_bound(board, (2 * idx) as u128);
    lemma_bv_write_undo(board, (2 * idx) as u128, v as u128);
}

/// Reads the code of cell `idx`.
pub fn get_cell(board: u128, idx: usize) -> (code: u8)
    requires
        idx < CELLS,
    ensures
        code == cell(board, idx as int),
        code <= 3,
{
    proof {
        lemma_bv_code_bound(board, (2 * idx) as u128);
    }
    ((board >> ((2 * idx) as u128)) & 3u128) as u8
}

/// Returns `board` with the code `v` stored in cell `idx`.
pub fn set_cell(board: u128, idx: usize, v: u8) -> (out: u128)
    requires
        idx < CELLS,
        v <= 3,
    ensures
        out == with_cell(board, idx as int, v),
        forall|j: int|
            0 <= j < 64 ==> #[trigger] cell(out, j) == (if j == idx as int {
                v
            } else {
                cell(board, j)
            }),
{
    proof {
        lemma_with_cell(board, idx as int, v);
    }
    let shift: u128 = (2 * idx) as u128;
    (board & !(3u128 << shift)) | ((v as u128) << shift)
}

/// The lower bit of every cell.
pub const LOW_BITS: u128 = 0x5555_5555_5555_5555_5555_5555_5555_5555;

/// The upper bit of every cell.
pub const HIGH_BITS: u128 = 0xaaaa_aaaa_aaaa_aaaa_aaaa_aaaa_aaaa_aaaa;

/// The word that has, in the upper bit of every cell, whether the cell of
/// `board` holds anything, and 0 in every lower bit.
pub open spec fn folded(board: u128) -> u128 {
    (board & HIGH_BITS) | ((board & LOW_BITS) << 1)
}

/// The bits below bit `s`.
pub open spec fn bits_below(s: u128) -> u128 {
    if s >= 128 {
        0xffff_ffff_ffff_ffff_ffff_ffff_ffff_ffffu128
    } else {
        !(0xffff_ffff_ffff_ffff_ffff_ffff_ffff_ffffu128 << s)
    }
}

proof fn lemma_bv_folded_cell(board: u128, s: u128)
    by (bit_vector)
    requires
        s < 128,
        s % 2 == 0,
    ensures
        ((board >> s) & 3u128 != 0) <==> (folded(board) & (3u128 << s)) == (HIGH_BITS & (3u128
            << s)),
{
}

proof fn lemma_bv_agree_step(f: u128, y: u128, s: u128)
    by (bit_vector)
    requires
        s < 128,
        s % 2 == 0,
        (f & bits_below(s)) == (y & bits_below(s)),
        (f & (3u128 << s)) == (y & (3u128 << s)),
    ensures
        (f & bits_below((s + 2) as u128)) == (y & bits_below((s + 2) as u128)),
{
}

proof fn lemma_bv_agree_ends(f: u128, y: u128)
    by (bit_vector)
    ensures
        (f & bits_below(0)) == (y & bits_below(0)),
        (f & bits_below(128)) == (y & bits_below(128)) ==> f == y,
{
}

proof fn lemma_folded_prefix(board: u128, n: int)
    requires
        0 <= n <= 64,
        forall|k: int| 0 <= k < n ==> #[trigger] cell(board, k) != 0,
    ensures
        (folded(board) & bits_below((2 * n) as u128)) == (HIGH_BITS & bits_below((2 * n) as u128)),
    decreases n,
{
    if n == 0 {
        lemma_bv_agree_ends(folded(board), HIGH_BITS);
    } else {
        lemma_folded_prefix(board, n - 1);
        let s = (2 * (n - 1)) as u128;
        assert(cell(board, n - 1) != 0);
        lemma_bv_code_bound(board, s);
        lemma_bv_folded_cell(board, s);
        lemma_bv_agree_step(folded(board), HIGH_BITS, s);
        assert((s + 2) as u128 == (2 * n) as u128);
    }
}

/// The folded word has every upper bit set exactly when no cell is empty.
pub proof fn lemma_folded(board: u128)
    ensures
        folded(board) == HIGH_BITS <==> forall|k: int| 0 <= k < 64 ==> #[trigger] cell(board, k) != 0,
{
    if folded(board) == HIGH_BITS {
        assert forall|k: int| 0 <= k < 64 implies #[trigger] cell(board, k) != 0 by {
            lemma_bv_folded_cell(board, (2 * k) as u128);
            lemma_bv_code_bound(board, (2 * k) as u128);
        }
    }
    if forall|k: int| 0 <= k < 64 ==> #[trigger] cell(board, k) != 0 {
        lemma_folded_prefix(board, 64);
        lemma_bv_agree_ends(folded(board), HIGH_BITS);
    }
}

/// Whether no cell of `board` is empty, found with two masks.
pub fn no_cell_empty(board: u128) -> (r: bool)
    ensures
        r == forall|k: int| 0 <= k < 64 ==> #[trigger] cell(board, k) != 0,
{
    proof {
        lemma_folded(board);
    }
    HIGH_BITS == ((board & HIGH_BITS) | ((board & LOW_BITS) << 1))
}

proof fn lemma_bv_mark(seen: u64, i: u64, j: u64)
    by (bit_vector)
    requires
        i < 64,
        j < 64,
    ensures
        ((seen | (1u64 << i)) >> j) & 1u64 == (if i == j {
            1u64
        } else {
            (seen >> j) & 1u64
        }),
        (0u64 >> j) & 1u64 == 0,
{
}

/// Whether bit `idx` of a set of cells is set.
pub open spec fn marked(seen: u64, idx: int) -> bool {
    (seen >> (idx as u64)) & 1u64 == 1
}

/// Whether cell `idx` is in the set `seen`.
pub fn is_marked(seen: u64, idx: usize) -> (r: bool)
    requires
        idx < CELLS,
    ensures
        r == marked(seen, idx as int),
{
    (seen >> (idx as u64)) & 1u64 == 1
}

/// The set `seen` with cell `idx` added.
pub fn mark(seen: u64, idx: usize) -> (out: u64)
    requires
        idx < CELLS,
    ensures
        forall|j: int| 0 <= j < 64 ==> #[trigger] marked(out, j) == (j == idx || marked(seen, j)),
{
    let out = seen | (1u64 << (idx as u64));
    proof {
        assert forall|j: int| 0 <= j < 64 implies #[trigger] marked(out, j) == (j == idx || marked(
            seen,
            j,
        )) by {
            lemma_bv_mark(seen, idx as u64, j as u64);
        }
    }
    out
}

/// No cell is in the empty set.
pub proof fn lemma_none_marked()
    ensures
        forall|j: int| 0 <= j < 64 ==> !#[trigger] marked(0, j),
{
    assert forall|j: int| 0 <= j < 64 implies !#[trigger] marked(0, j) by {
        lemma_bv_mark(0, 0, j as u64);
    }
}

/// How many of the first `n` cells of `board` hold a piece.
pub open spec fn filled(board: u128, n: int) -> int
    decreases n,
{
    if n <= 0 {
        0
    } else if cell(board, n - 1) != 0 {
        filled(board, n - 1) + 1
    } else {
        filled(board, n - 1)
    }
}

/// Among `n` cells at most `n` hold a piece, and all `n` do only if none is
/// empty.
pub proof fn lemma_filled_bound(board: u128, n: int)
    requires
        0 <= n <= 64,
    ensures
        0 <= filled(board, n) <= n,
        filled(board, n) == n ==> forall|k: int| 0 <= k < n ==> #[trigger] cell(board, k) != 0,
    decreases n,
{
    if n > 0 {
        lemma_filled_bound(board, n - 1);
    }
}

/// The zero word holds no piece.
pub proof fn lemma_filled_zero(n: int)
    requires
        0 <= n <= 64,
    ensures
        filled(0, n) == 0,
    decreases n,
{
    if n > 0 {
        lemma_filled_zero(n - 1);
        lemma_cell_zero(n - 1);
    }
}

/// A piece written into an empty cell is one piece more; the count of a
/// range that does not reach the cell stays.
pub proof fn lemma_filled_write(board: u128, idx: int, v: u8, n: int)
    requires
        0 <= idx < 64,
        0 <= n <= 64,
        1 <= v <= 3,
        cell(board, idx) == 0,
    ensures
        filled(with_cell(board, idx, v), n) == filled(board, n) + (if idx < n {
            1int
        } else {
            0int
        }),
    decreases n,
{
    if n > 0 {
        lemma_filled_write(board, idx, v, n - 1);
        lemma_with_cell(board, idx, v);
        assert(cell(with_cell(board, idx, v), n - 1) == (if n - 1 == idx {
            v
        } else {
            cell(board, n - 1)
        }));
    }
}

proof fn lemma_bv_cell_group(a: u128, b: u128, s: u128)
    by (bit_vector)
    requires
        s < 128,
        s % 2 == 0,
        (a >> s) & 3u128 == (b >> s) & 3u128,
    ensures
        (a & (3u128 << s)) == (b & (3u128 << s)),
{
}

proof fn lemma_same_cells_prefix(a: u128, b: u128, n: int)
    requires
        0 <= n <= 64,
        forall|k: int| 0 <= k < n ==> #[trigger] cell(a, k) == cell(b, k),
    ensures
        (a & bits_below((2 * n) as u128)) == (b & bits_below((2 * n) as u128)),
    decreases n,
{
    if n == 0 {
        lemma_bv_agree_ends(a, b);
    } else {
        lemma_same_cells_prefix(a, b, n - 1);
        let s = (2 * (n - 1)) as u128;
        assert(cell(a, n - 1) == cell(b, n - 1));
        lemma_bv_code_bound(a, s);
        lemma_bv_code_bound(b, s);
        lemma_bv_cell_group(a, b, s);
        lemma_bv_agree_step(a, b, s);
        assert((s + 2) as u128 == (2 * n) as u128);
    }
}

/// Two board words with the same 64 cells are the same word.
pub proof fn lemma_same_cells(a: u128, b: u128)
    requires
        forall|k: int| 0 <= k < 64 ==> #[trigger] cell(a, k) == cell(b, k),
    ensures
        a == b,
{
    lemma_same_cells_prefix(a, b, 64);
    lemma_bv_agree_ends(a, b);
}

proof fn lemma_bv_write_nothing(board: u128, s: u128)
    by (bit_vector)
    requires
        s < 128,
        (board >> s) & 3u128 == 0,
    ensures
        (board & !(3u128 << s)) | (0u128 << s) == board,
{
}

/// Clearing a cell that is empty leaves the word as it is.
pub proof fn lemma_with_cell_nothing(board: u128, idx: int)
    requires
        0 <= idx < 64,
        cell(board, idx) == 0,
    ensures
        with_cell(board, idx, 0) == board,
{
    lemma_bv_code_bound(board, (2 * idx) as u128);
    lemma_bv_write_nothing(board, (2 * idx) as u128);
}

/// Whether `to` and `from` move the 64 cells around and back: each takes a
/// cell to a cell, and each undoes the other.
pub open spec fn moves_cells(to: spec_fn(int) -> int, from: spec_fn(int) -> int) -> bool {
    &&& forall|k: int| 0 <= k < 64 ==> 0 <= #[trigger] to(k) < 64 && from(to(k)) == k
    &&& forall|k: int| 0 <= k < 64 ==> 0 <= #[trigger] from(k) < 64 && to(from(k)) == k
}

/// The board word in which the first `k` cells of `board` have been put
/// where `to` takes them, and nothing else.
pub open spec fn placed_upto(board: u128, to: spec_fn(int) -> int, k: int) -> u128
    decreases k,
{
    if k <= 0 {
        0
    } else {
        with_cell(placed_upto(board, to, k - 1), to(k - 1), cell(board, k - 1))
    }
}

/// After the first `k` cells are put in their places, each of them is found
/// there, every other place is empty, and the word holds as many pieces as
/// the first `k` cells do.
pub proof fn lemma_placed_upto(
    board: u128,
    to: spec_fn(int) -> int,
    from: spec_fn(int) -> int,
    k: int,
)
    requires
        moves_cells(to, from),
        0 <= k <= 64,
    ensures
        forall|j: int|
            0 <= j < 64 ==> #[trigger] cell(placed_upto(board, to, k), to(j)) == (if j < k {
                cell(board, j)
            } else {
                0
            }),
        filled(placed_upto(board, to, k), 64) == filled(board, k),
    decreases k,
{
    let cur = placed_upto(board, to, k);
    if k == 0 {
        assert forall|j: int| 0 <= j < 64 implies #[trigger] cell(cur, to(j)) == 0 by {
            lemma_cell_zero(to(j));
        }
        lemma_filled_zero(64);
    } else {
        lemma_placed_upto(board, to, from, k - 1);
        let prev = placed_upto(board, to, k - 1);
        let v = cell(board, k - 1);
        let idx = to(k - 1);
        lemma_cell_bound(board, k - 1);
        lemma_with_cell(prev, idx, v);
        assert forall|j: int| 0 <= j < 64 implies #[trigger] cell(cur, to(j)) == (if j < k {
            cell(board, j)
        } else {
            0
        }) by {
            assert(from(to(j)) == j);
            assert(from(to(k - 1)) == k - 1);
            assert(cell(prev, to(j)) == (if j < k - 1 {
                cell(board, j)
            } else {
                0
            }));
        }
        assert(cell(prev, idx) == 0);
        if v == 0 {
            lemma_with_cell_nothing(prev, idx);
        } else {
            lemma_filled_write(prev, idx, v, 64);
        }
    }
}

/// Two board words of which the one holds, in the place where `to` takes
/// each cell, what the other holds in the cell, hold equally many pieces.
pub proof fn lemma_moved_cells_count(
    a: u128,
    b: u128,
    to: spec_fn(int) -> int,
    from: spec_fn(int) -> int,
)
    requires
        moves_cells(to, from),
        forall|k: int| 0 <= k < 64 ==> cell(b, #[trigger] to(k)) == cell(a, k),
    ensures
        filled(b, 64) == filled(a, 64),
{
    let p = placed_upto(a, to, 64);
    lemma_placed_upto(a, to, from, 64);
    assert forall|j: int| 0 <= j < 64 implies #[trigger] cell(p, j) == cell(b, j) by {
        let k = from(j);
        assert(to(k) == j);
        assert(cell(p, to(k)) == cell(a, k));
        assert(cell(b, to(k)) == cell(a, k));
    }
    lemma_same_cells(p, b);
}

} // verus!
