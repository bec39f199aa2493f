use vstd::prelude::*;
use vstd::arithmetic::div_mod::{
    lemma_fundamental_div_mod,
    lemma_fundamental_div_mod_converse_div,
    lemma_fundamental_div_mod_converse_mod,
};

verus! {

/// A grid of `n` cells in rows of `c`, laid out row after row.
pub open spec fn grid_ok(c: int, n: int) -> bool {
    c > 0 && n > 0 && c <= n && n % c == 0 && n <= isize::MAX
}

/// 1 when row `r`, column `k` lies on the grid and holds a mine, else 0.
pub open spec fn mine_at(mines: Seq<bool>, c: int, r: int, k: int) -> nat {
    if 0 <= r && 0 <= k < c && r * c + k < mines.len() && mines[r * c + k] {
        1
    } else {
        0
    }
}

/// The number of mines among the (up to eight) cells around cell `i`.
#[verifier::opaque]
pub open spec fn mine_neighbours(mines: Seq<bool>, c: int, i: int) -> nat {
    let r = i / c;
    let k = i % c;
    mine_at(mines, c, r - 1, k - 1) + mine_at(mines, c, r - 1, k) + mine_at(mines, c, r - 1, k + 1)
        + mine_at(mines, c, r, k - 1) + mine_at(mines, c, r, k + 1)
        + mine_at(mines, c, r + 1, k - 1) + mine_at(mines, c, r + 1, k)
        + mine_at(mines, c, r + 1, k + 1)
}

/// Cells `i` and `j` differ, and their rows and their columns each differ by at most one.
pub open spec fn adjacent(c: int, i: int, j: int) -> bool {
    let dr = i / c - j / c;
    let dk = i % c - j % c;
    -1 <= dr <= 1 && -1 <= dk <= 1 && !(dr == 0 && dk == 0)
}

/// Cell `k` lies just above cell `i`.
pub open spec fn above(c: int, i: int, k: int) -> bool {
    i >= c && k == i - c
}

/// Cell `k` lies just below cell `i`, on a grid of `n` cells.
pub open spec fn below(c: int, n: int, i: int, k: int) -> bool {
    i + c < n && k == i + c
}

/// Cell `k` lies just left of cell `i`, in the same row.
pub open spec fn left_of(c: int, i: int, k: int) -> bool {
    i % c > 0 && k == i - 1
}

/// Cell `k` lies just right of cell `i`, in the same row.
pub open spec fn right_of(c: int, i: int, k: int) -> bool {
    i % c < c - 1 && k == i + 1
}

/// Cells `i` and `k` share a side.
pub open spec fn side_by_side(c: int, n: int, i: int, k: int) -> bool {
    above(c, i, k) || below(c, n, i, k) || left_of(c, i, k) || right_of(c, i, k)
}

/// Row `r`, column `k` (with `0 <= k < c`) is cell `i` exactly when `r` and `k`
/// are the row and column of `i`.
pub proof fn lemma_row_col(c: int, i: int, r: int, k: int)
    requires
        c > 0,
        0 <= k < c,
    ensures
        (r * c + k == i) <==> (r == i / c && k == i % c),
{
    if r * c + k == i {
        lemma_fundamental_div_mod_converse_div(i, c, r, k);
        lemma_fundamental_div_mod_converse_mod(i, c, r, k);
    }
    lemma_fundamental_div_mod(i, c);
    assert(c * (i / c) == (i / c) * c) by (nonlinear_arith);
}

/// Placing one more mine at `i` adds one to the count of exactly the cells adjacent to `i`.
pub proof fn lemma_place_mine(mines: Seq<bool>, c: int, i: int, j: int)
    requires
        c > 0,
        0 <= i < mines.len(),
        !mines[i],
    ensures
        mine_neighbours(mines.update(i, true), c, j)
            == mine_neighbours(mines, c, j) + (if adjacent(c, i, j) { 1nat } else { 0nat }),
{
    reveal(mine_neighbours);
    let m2 = mines.update(i, true);
    let r = j / c;
    let k = j % c;
    assert forall|dr: int, dk: int|
        -1 <= dr <= 1 && -1 <= dk <= 1 implies #[trigger] mine_at(m2, c, r + dr, k + dk) == mine_at(
        mines,
        c,
        r + dr,
        k + dk,
    ) + (if r + dr == i / c && k + dk == i % c {
        1nat
    } else {
        0nat
    }) by {
        if 0 <= k + dk < c {
            lemma_row_col(c, i, r + dr, k + dk);
        }
        lemma_fundamental_div_mod(i, c);
        if r + dr == i / c && k + dk == i % c {
            assert(0 <= i % c < c);
            assert(0 <= i / c) by {
                vstd::arithmetic::div_mod::lemma_div_pos_is_pos(i, c);
            }
        }
    }
    assert(mine_at(m2, c, r - 1, k - 1) == mine_at(m2, c, r + -1, k + -1));
    assert(mine_at(m2, c, r - 1, k) == mine_at(m2, c, r + -1, k + 0));
    assert(mine_at(m2, c, r - 1, k + 1) == mine_at(m2, c, r + -1, k + 1));
    assert(mine_at(m2, c, r, k - 1) == mine_at(m2, c, r + 0, k + -1));
    assert(mine_at(m2, c, r, k + 1) == mine_at(m2, c, r + 0, k + 1));
    assert(mine_at(m2, c, r + 1, k - 1) == mine_at(m2, c, r + 1, k + -1));
    assert(mine_at(m2, c, r + 1, k) == mine_at(m2, c, r + 1, k + 0));
    assert(mine_at(mines, c, r - 1, k - 1) == mine_at(mines, c, r + -1, k + -1));
    assert(mine_at(mines, c, r - 1, k) == mine_at(mines, c, r + -1, k + 0));
    assert(mine_at(mines, c, r - 1, k + 1) == mine_at(mines, c, r + -1, k + 1));
    assert(mine_at(mines, c, r, k - 1) == mine_at(mines, c, r + 0, k + -1));
    assert(mine_at(mines, c, r, k + 1) == mine_at(mines, c, r + 0, k + 1));
    assert(mine_at(mines, c, r + 1, k - 1) == mine_at(mines, c, r + 1, k + -1));
    assert(mine_at(mines, c, r + 1, k) == mine_at(mines, c, r + 1, k + 0));
    assert(mine_at(m2, c, r + 1, k + 1) == mine_at(mines, c, r + 1, k + 1) + (if r + 1 == i / c
        && k + 1 == i % c {
        1nat
    } else {
        0nat
    }));
}

/// At most eight cells surround any cell.
pub proof fn lemma_neighbours_at_most_eight(mines: Seq<bool>, c: int, j: int)
    ensures
        mine_neighbours(mines, c, j) <= 8,
{
    reveal(mine_neighbours);
}

/// Where no cell holds a mine, every count is 0.
pub proof fn lemma_no_mines(mines: Seq<bool>, c: int, j: int)
    requires
        forall|k: int| 0 <= k < mines.len() ==> !mines[k],
    ensures
        mine_neighbours(mines, c, j) == 0,
{
    reveal(mine_neighbours);
}

} // verus!
