use vstd::prelude::*;
use rand::Rng;
use vstd::arithmetic::div_mod::{
    lemma_fundamental_div_mod,
    lemma_fundamental_div_mod_converse_mod,
};
use crate::cell::{Cell, CellView};
use crate::fill::{
    newly_shown, only_uncovers, spreads, spreads_except, shown_around, fill_result, covered_count,
    lemma_covered_count, lemma_chain, reached_from, lemma_chain_reach,
};
use crate::grid::{
    above, below, left_of, right_of, side_by_side, grid_ok, mine_neighbours, adjacent,
    lemma_place_mine, lemma_row_col, lemma_neighbours_at_most_eight, lemma_no_mines,
};

verus! {

/// The grid of `N` cells in rows of `C`, and the highlighted cell.
#[derive(Clone, Copy, Debug, PartialEq, Eq)]
pub struct Board<const C: usize, const N: usize> {
    pub cells: [Cell; N],
    pub cursor: isize,
}

/// What each cell of an array holds.
pub open spec fn views<const N: usize>(cells: [Cell; N]) -> Seq<CellView> {
    cells@.map_values(|x: Cell| x@)
}

/// Which cells a list of rolls mines: cell `k` when `rolls[k] / n < numer / denom`.
pub open spec fn roll_mines(rolls: Seq<usize>, numer: int, denom: int, n: int) -> Seq<bool> {
    Seq::new(n as nat, |k: int| rolls[k] * denom < numer * n)
}

/// The mines of `mines` at the first `i` cells only.
pub open spec fn mines_before(mines: Seq<bool>, i: int) -> Seq<bool> {
    Seq::new(mines.len(), |k: int| k < i && mines[k])
}

impl<const C: usize, const N: usize> Board<C, N> {
    /// The grid's shape is sound and the cursor lies on it.
    pub open spec fn wf(&self) -> bool {
        grid_ok(C as int, N as int) && 0 <= self.cursor < N
    }

    /// Which cells hold a mine.
    pub open spec fn mines(&self) -> Seq<bool> {
        views(self.cells).map_values(|x: CellView| x.mine)
    }

    /// Every cell's tally is the number of mines around it.
    pub open spec fn counts_match(&self) -> bool {
        forall|j: int|
            0 <= j < N ==> (#[trigger] views(self.cells)[j]).neighbours == mine_neighbours(
                self.mines(),
                C as int,
                j,
            )
    }

    /// A fresh board: all covered, none flagged, the tallies right, the cursor at 0.
    pub open spec fn fresh(&self) -> bool {
        &&& self.wf()
        &&& self.cursor == 0
        &&& self.counts_match()
        &&& forall|j: int|
            0 <= j < N ==> (#[trigger] views(self.cells)[j]).covered && !views(self.cells)[j].flagged
    }
}

/// The cells whose tally `inc_adjacent` raises, by index and bounds check.
spec fn raised(c: int, n: int, i: int, j: int) -> bool {
    let r = i / c;
    let col = i % c;
    ||| r > 0 && col > 0 && j == i - c - 1
    ||| r > 0 && j == i - c
    ||| r > 0 && col < c - 1 && j == i - c + 1
    ||| col > 0 && j == i - 1
    ||| col < c - 1 && j == i + 1
    ||| r + 1 < n / c && col > 0 && j == i + c - 1
    ||| r + 1 < n / c && j == i + c
    ||| r + 1 < n / c && col < c - 1 && j == i + c + 1
}

fn bump<const N: usize>(cells: &mut [Cell; N], j: usize)
    requires
        j < N,
    ensures
        views(*final(cells)) == views(*old(cells)).update(
            j as int,
            views(*old(cells))[j as int].with_neighbours(
                ((views(*old(cells))[j as int].neighbours + 1) % 32) as nat,
            ),
        ),
{
    cells[j].inc_neighbours();
    assert(views(*cells) =~= views(*old(cells)).update(
        j as int,
        views(*old(cells))[j as int].with_neighbours(
            ((views(*old(cells))[j as int].neighbours + 1) % 32) as nat,
        ),
    ));
}

/// `v` with one added to the tally of each cell in `s`.
spec fn raised_once(v: Seq<CellView>, s: Set<int>) -> Seq<CellView> {
    Seq::new(
        v.len(),
        |j: int|
            if s.contains(j) {
                v[j].with_neighbours(((v[j].neighbours + 1) % 32) as nat)
            } else {
                v[j]
            },
    )
}

proof fn lemma_raise_one(v: Seq<CellView>, s: Set<int>, x: int)
    requires
        0 <= x < v.len(),
        !s.contains(x),
    ensures
        raised_once(v, s).update(
            x,
            raised_once(v, s)[x].with_neighbours(((raised_once(v, s)[x].neighbours + 1) % 32) as nat),
        ) == raised_once(v, s.insert(x)),
{
    assert(raised_once(v, s).update(
        x,
        raised_once(v, s)[x].with_neighbours(((raised_once(v, s)[x].neighbours + 1) % 32) as nat),
    ) =~= raised_once(v, s.insert(x)));
}

/// The cells that `inc_adjacent` raises are the cells adjacent to `i`.
proof fn lemma_raised_adjacent(c: int, n: int, i: int, j: int)
    requires
        grid_ok(c, n),
        0 <= i < n,
        0 <= j < n,
    ensures
        raised(c, n, i, j) == adjacent(c, i, j),
{
    let r = i / c;
    let col = i % c;
    lemma_fundamental_div_mod(i, c);
    lemma_fundamental_div_mod(n, c);
    assert(c * r == r * c) by (nonlinear_arith);
    assert((r - 1) * c == r * c - c) by (nonlinear_arith);
    assert((r + 1) * c == r * c + c) by (nonlinear_arith);
    lemma_fundamental_div_mod(j, c);
    assert(c * (j / c) == (j / c) * c) by (nonlinear_arith);
    let jr = j / c;
    let jc = j % c;
    if col > 0 {
        lemma_row_col(c, j, r - 1, col - 1);
        lemma_row_col(c, j, r, col - 1);
        lemma_row_col(c, j, r + 1, col - 1);
    }
    lemma_row_col(c, j, r - 1, col);
    lemma_row_col(c, j, r, col);
    lemma_row_col(c, j, r + 1, col);
    if col + 1 < c {
        lemma_row_col(c, j, r - 1, col + 1);
        lemma_row_col(c, j, r, col + 1);
        lemma_row_col(c, j, r + 1, col + 1);
    }
    if jr == r + 1 {
        assert(n >= (r + 2) * c) by (nonlinear_arith)
            requires
                n == c * (n / c),
                j < n,
                j == jr * c + jc,
                jr == r + 1,
                0 <= jc,
                c > 0,
        ;
        assert(r + 1 < n / c) by (nonlinear_arith)
            requires
                (r + 2) * c <= n,
                n == c * (n / c),
                c > 0,
        ;
    }
}

/// Adds one to the tally of each cell adjacent to `i`.
fn inc_adjacent<const C: usize, const N: usize>(cells: &mut [Cell; N], i: usize)
    requires
        grid_ok(C as int, N as int),
        i < N,
    ensures
        forall|j: int|
            0 <= j < N ==> #[trigger] views(*final(cells))[j] == views(*old(cells))[j].with_neighbours(
                ((views(*old(cells))[j].neighbours + if adjacent(C as int, i as int, j) {
                    1nat
                } else {
                    0nat
                }) % 32) as nat,
            ),
{
    let ghost c = C as int;
    let ghost old_v = views(*cells);
    let ghost mut done: Set<int> = Set::empty();
    proof {
        assert(raised_once(old_v, done) =~= old_v);
    }
    let r = i / C;
    let col = i % C;
    proof {
        lemma_fundamental_div_mod(i as int, c);
        lemma_fundamental_div_mod(N as int, c);
        assert(c * (i / C) == (i / C) * c) by (nonlinear_arith);
        assert((r - 1) * c == r * c - c) by (nonlinear_arith);
        assert((r + 1) * c == r * c + c) by (nonlinear_arith);
        assert((r + 1) * c <= N as int) by (nonlinear_arith)
            requires
                i as int == c * r + col,
                0 <= col < c,
                N as int == c * (N as int / c),
                (i as int) < N as int,
                r == i as int / c,
        ;
    }
    if r > 0 {
        if col > 0 {
            proof {
                lemma_raise_one(old_v, done, (i - C - 1) as int);
                done = done.insert((i - C - 1) as int);
            }
            bump(cells, i - C - 1);
        }
        proof {
            lemma_raise_one(old_v, done, (i - C) as int);
            done = done.insert((i - C) as int);
        }
        bump(cells, i - C);
        if col < C - 1 {
            proof {
                lemma_raise_one(old_v, done, (i - C + 1) as int);
                done = done.insert((i - C + 1) as int);
            }
            bump(cells, i - C + 1);
        }
    }
    if col > 0 {
        proof {
            lemma_raise_one(old_v, done, (i - 1) as int);
            done = done.insert((i - 1) as int);
        }
        bump(cells, i - 1);
    }
    if col < C - 1 {
        proof {
            lemma_raise_one(old_v, done, (i + 1) as int);
            done = done.insert((i + 1) as int);
        }
        bump(cells, i + 1);
    }
    if r + 1 < N / C {
        proof {
            assert((r + 2) * c <= (N as int / c) * c) by (nonlinear_arith)
                requires
                    r + 1 < N as int / c,
                    c > 0,
            ;
            assert((r + 2) * c == r * c + 2 * c) by (nonlinear_arith);
        }
        if col > 0 {
            proof {
                lemma_raise_one(old_v, done, (i + C - 1) as int);
                done = done.insert((i + C - 1) as int);
            }
            bump(cells, i + C - 1);
        }
        proof {
            lemma_raise_one(old_v, done, (i + C) as int);
            done = done.insert((i + C) as int);
        }
        bump(cells, i + C);
        if col < C - 1 {
            proof {
                lemma_raise_one(old_v, done, (i + C + 1) as int);
                done = done.insert((i + C + 1) as int);
            }
            bump(cells, i + C + 1);
        }
    }
    proof {
        assert(views(*cells) == raised_once(old_v, done));
        assert forall|j: int| 0 <= j < N implies #[trigger] done.contains(j) == raised(c, N as int, i as int, j) by {}
        assert forall|j: int| 0 <= j < N implies #[trigger] views(*cells)[j] == old_v[j].with_neighbours(
            ((old_v[j].neighbours + if adjacent(c, i as int, j) {
                1nat
            } else {
                0nat
            }) % 32) as nat,
        ) by {
            lemma_raised_adjacent(c, N as int, i as int, j);
            Cell::lemma_neighbours_bound(old(cells)@[j]);
            assert(done.contains(j) == raised(c, N as int, i as int, j));
        }
    }
}

#[verifier::external_type_specification]
#[verifier::external_body]
pub struct ExThreadRng(rand::rngs::ThreadRng);

/// Relies on rand::Rng::gen_range: a value drawn from `0..n` (it panics on an
/// empty range).
#[verifier::external_body]
fn roll_below(rng: &mut rand::rngs::ThreadRng, n: usize) -> (r: usize)
    requires
        n > 0,
    ensures
        r < n,
{
    rng.gen_range(0..n)
}

/// With no chance of a mine no roll lays one; with certainty every roll below
/// `n` does.
pub proof fn lemma_roll_extremes(rolls: Seq<usize>, numer: int, denom: int, n: int)
    requires
        rolls.len() == n,
        denom > 0,
        numer >= 0,
        forall|k: int| 0 <= k < n ==> rolls[k] < n,
    ensures
        numer == 0 ==> forall|k: int| 0 <= k < n ==> !(#[trigger] roll_mines(rolls, numer, denom, n)[k]),
        numer >= denom ==> forall|k: int| 0 <= k < n ==> #[trigger] roll_mines(rolls, numer, denom, n)[k],
{
    assert forall|k: int| 0 <= k < n implies (numer == 0 ==> !(#[trigger] roll_mines(rolls, numer, denom, n)[k]))
        && (numer >= denom ==> roll_mines(rolls, numer, denom, n)[k]) by {
        let x = rolls[k] as int;
        assert(roll_mines(rolls, numer, denom, n)[k] == (x * denom < numer * n));
        assert(x * denom >= 0) by (nonlinear_arith)
            requires
                x >= 0,
                denom > 0,
        ;
        if numer == 0 {
            assert(numer * n == 0) by (nonlinear_arith)
                requires
                    numer == 0,
            ;
        }
        if numer >= denom {
            assert(x * denom < numer * n) by (nonlinear_arith)
                requires
                    0 <= x < n,
                    0 < denom <= numer,
            ;
        }
    }
}

impl<const C: usize, const N: usize> Board<C, N> {
    /// A fresh board whose mines come from `rolls`: cell `k` holds one when
    /// `rolls[k] / N < mine_numer / mine_denom`.
    pub fn new_from_rolls(rolls: &[usize], mine_numer: u64, mine_denom: u64) -> (b: Self)
        requires
            grid_ok(C as int, N as int),
            rolls@.len() == N,
        ensures
            b.fresh(),
            b.mines() == roll_mines(rolls@, mine_numer as int, mine_denom as int, N as int),
    {
        let ghost c = C as int;
        let ghost mines = roll_mines(rolls@, mine_numer as int, mine_denom as int, N as int);
        let mut cells: [Cell; N] = [Cell::from_bits(Cell::COVERED); N];
        proof {
            Cell::lemma_flag_bits();
            assert forall|j: int| 0 <= j < N implies #[trigger] views(cells)[j] == (CellView {
                mine: false,
                covered: true,
                flagged: false,
                neighbours: mine_neighbours(mines_before(mines, 0), c, j),
            }) by {
                lemma_no_mines(mines_before(mines, 0), c, j);
            }
        }
        let mut i: usize = 0;
        while i < N
            invariant
                grid_ok(c, N as int),
                c == C as int,
                rolls@.len() == N,
                i <= N,
                mines == roll_mines(rolls@, mine_numer as int, mine_denom as int, N as int),
                forall|j: int|
                    0 <= j < N ==> #[trigger] views(cells)[j] == (CellView {
                        mine: j < i && mines[j],
                        covered: true,
                        flagged: false,
                        neighbours: mine_neighbours(mines_before(mines, i as int), c, j),
                    }),
            decreases N - i,
        {
            let roll = rolls[i] as u128;
            proof {
                assert(roll * (mine_denom as u128) < 0x1_0000_0000_0000_0000 * 0x1_0000_0000_0000_0000)
                    by (nonlinear_arith)
                    requires
                        roll < 0x1_0000_0000_0000_0000,
                        mine_denom < 0x1_0000_0000_0000_0000,
                ;
                assert((mine_numer as u128) * (N as u128) < 0x1_0000_0000_0000_0000 * 0x1_0000_0000_0000_0000)
                    by (nonlinear_arith)
                    requires
                        mine_numer < 0x1_0000_0000_0000_0000,
                        N < 0x1_0000_0000_0000_0000,
                ;
            }
            let hit = roll * (mine_denom as u128) < (mine_numer as u128) * (N as u128);
            let ghost old_cells_v = views(cells);
            let ghost before = mines_before(mines, i as int);
            let ghost after = mines_before(mines, i + 1);
            assert(hit == mines[i as int]);
            if hit {
                cells[i].toggle_mine();
                let ghost mid = views(cells);
                assert(mid =~= old_cells_v.update(i as int, old_cells_v[i as int].with_mine(true)));
                inc_adjacent::<C, N>(&mut cells, i);
                proof {
                    assert(after =~= before.update(i as int, true));
                    assert forall|j: int| 0 <= j < N implies #[trigger] mine_neighbours(after, c, j)
                        == mine_neighbours(before, c, j) + (if adjacent(c, i as int, j) {
                        1nat
                    } else {
                        0nat
                    }) by {
                        lemma_place_mine(before, c, i as int, j);
                        lemma_neighbours_at_most_eight(after, c, j);
                    }
                    assert forall|j: int| 0 <= j < N implies mine_neighbours(after, c, j) < 32 by {
                        lemma_neighbours_at_most_eight(after, c, j);
                    }
                    assert(!adjacent(c, i as int, i as int));
                    assert forall|j: int| 0 <= j < N implies #[trigger] views(cells)[j] == (CellView {
                        mine: j < i + 1 && mines[j],
                        covered: true,
                        flagged: false,
                        neighbours: mine_neighbours(after, c, j),
                    }) by {
                        lemma_neighbours_at_most_eight(after, c, j);
                        assert(mid[j].neighbours == mine_neighbours(before, c, j));
                    }
                }
            } else {
                proof {
                    assert(after =~= before);
                    assert forall|j: int| 0 <= j < N implies #[trigger] views(cells)[j] == (CellView {
                        mine: j < i + 1 && mines[j],
                        covered: true,
                        flagged: false,
                        neighbours: mine_neighbours(after, c, j),
                    }) by {
                        assert(views(cells)[j] == old_cells_v[j]);
                    }
                }
            }
            i += 1;
        }
        proof {
            assert(mines_before(mines, N as int) =~= mines);
        }
        let b = Board { cells, cursor: 0 };
        proof {
            assert(b.mines() =~= mines);
        }
        b
    }

    /// A fresh board on which each cell, one after another, draws a number
    /// below `N` and holds a mine when that number over `N` falls below
    /// `mine_numer / mine_denom`.
    pub fn new_from_rng(rng: &mut rand::rngs::ThreadRng, mine_numer: u64, mine_denom: u64) -> (b: Self)
        requires
            grid_ok(C as int, N as int),
            mine_denom > 0,
        ensures
            b.fresh(),
            exists|rolls: Seq<usize>|
                rolls.len() == N && (forall|k: int| 0 <= k < N ==> #[trigger] rolls[k] < N)
                    && b.mines() == roll_mines(rolls, mine_numer as int, mine_denom as int, N as int),
            mine_numer == 0 ==> forall|k: int|
                0 <= k < N ==> !(#[trigger] views(b.cells)[k]).mine && views(b.cells)[k].neighbours == 0,
            mine_numer >= mine_denom ==> forall|k: int| 0 <= k < N ==> (#[trigger] views(b.cells)[k]).mine,
    {
        let mut rolls: Vec<usize> = Vec::new();
        let mut i: usize = 0;
        while i < N
            invariant
                rolls@.len() == i,
                i <= N,
                forall|k: int| 0 <= k < i ==> #[trigger] rolls@[k] < N,
            decreases N - i,
        {
            let roll = roll_below(rng, N);
            rolls.push(roll);
            i += 1;
        }
        let b = Self::new_from_rolls(rolls.as_slice(), mine_numer, mine_denom);
        proof {
            let m = roll_mines(rolls@, mine_numer as int, mine_denom as int, N as int);
            assert(b.mines() == m);
            lemma_roll_extremes(rolls@, mine_numer as int, mine_denom as int, N as int);
            assert forall|k: int| 0 <= k < N implies #[trigger] b.mines()[k] == views(b.cells)[k].mine by {}
            if mine_numer >= mine_denom {
                assert forall|k: int| 0 <= k < N implies (#[trigger] views(b.cells)[k]).mine by {
                    assert(m[k]);
                    assert(b.mines()[k] == views(b.cells)[k].mine);
                }
            }
            if mine_numer == 0 {
                assert forall|k: int| 0 <= k < N implies !(#[trigger] views(b.cells)[k]).mine
                    && views(b.cells)[k].neighbours == 0 by {
                    assert(!m[k]);
                    assert(b.mines()[k] == views(b.cells)[k].mine);
                    assert forall|m: int| 0 <= m < N implies !b.mines()[m] by {
                        assert(b.mines()[m] == views(b.cells)[m].mine);
                    }
                    lemma_no_mines(b.mines(), C as int, k);
                }
            }
        }
        b
    }
}

impl<const C: usize, const N: usize> Board<C, N> {
    /// Uncovers the blank region around cell `idx`, if `idx` is covered and
    /// blank: the cell itself, then, spreading to the cells that share a side
    /// with it, every blank cell reached, and each numbered cell above or
    /// below one of them.  Numbered cells to the left or right are shown only
    /// where reached from above or below.
    pub fn uncover_blank_neighbours(&mut self, idx: usize)
        requires
            grid_ok(C as int, N as int),
            idx < N,
        ensures
            final(self).cursor == old(self).cursor,
            fill_result(views(old(self).cells), views(final(self).cells), C as int, idx as int),
        decreases covered_count(views(old(self).cells)), 0nat,
    {
        let ghost c = C as int;
        let ghost n = N as int;
        let ghost s0 = views(self.cells);
        let cell = self.cells[idx];
        if !cell.covered() || cell.mine() || cell.neighbours() > 0 {
            return;
        }
        self.cells[idx].toggle_covered();
        proof {
            assert(views(self.cells) =~= s0.update(idx as int, s0[idx as int].with_covered(false)));
            let s1 = views(self.cells);
            assert forall|k: int| 0 <= k < n implies #[trigger] s1[k] == s0[k] || (s0[k].covered
                && !s0[k].mine && s1[k] == s0[k].with_covered(false)) by {}
            assert(spreads_except(s0, s1, c, idx as int));
            assert(reached_from(s0, s1, c, idx as int));
        }
        let col = idx % C;
        proof {
            lemma_fundamental_div_mod(idx as int, c);
            lemma_fundamental_div_mod(n, c);
            assert(col <= idx) by (nonlinear_arith)
                requires
                    idx as int == c * (idx as int / c) + col,
                    idx >= 0,
                    c > 0,
            ;
            assert(col < c - 1 ==> idx + 1 < n) by (nonlinear_arith)
                requires
                    idx as int == c * (idx as int / c) + col,
                    n == c * (n / c),
                    idx < n,
                    c > 0,
                    0 <= col,
            ;
        }
        if idx >= C {
            let ghost before = views(self.cells);
            proof {
                lemma_covered_count(s0, before, idx as int);
            }
            self.spread_from(idx - C, true);
            proof {
                lemma_chain(s0, before, views(self.cells), c, idx as int);
                assert(above(c, idx as int, (idx - C) as int));
                assert(side_by_side(c, n, idx as int, (idx - C) as int));
                lemma_chain_reach(s0, before, views(self.cells), c, idx as int, (idx - C) as int);
            }
        }
        let ghost s2 = views(self.cells);
        if col > 0 {
            let ghost before = views(self.cells);
            proof {
                lemma_covered_count(s0, before, idx as int);
            }
            self.spread_from(idx - 1, false);
            proof {
                lemma_chain(s0, before, views(self.cells), c, idx as int);
                assert(left_of(c, idx as int, (idx - 1) as int));
                assert(side_by_side(c, n, idx as int, (idx - 1) as int));
                lemma_chain_reach(s0, before, views(self.cells), c, idx as int, (idx - 1) as int);
            }
        }
        let ghost s3 = views(self.cells);
        if col < C - 1 {
            let ghost before = views(self.cells);
            proof {
                lemma_covered_count(s0, before, idx as int);
            }
            self.spread_from(idx + 1, false);
            proof {
                lemma_chain(s0, before, views(self.cells), c, idx as int);
                assert(right_of(c, idx as int, (idx + 1) as int));
                assert(side_by_side(c, n, idx as int, (idx + 1) as int));
                lemma_chain_reach(s0, before, views(self.cells), c, idx as int, (idx + 1) as int);
            }
        }
        let ghost s4 = views(self.cells);
        if idx + C < N {
            let ghost before = views(self.cells);
            proof {
                lemma_covered_count(s0, before, idx as int);
            }
            self.spread_from(idx + C, true);
            proof {
                lemma_chain(s0, before, views(self.cells), c, idx as int);
                assert(below(c, n, idx as int, (idx + C) as int));
                assert(side_by_side(c, n, idx as int, (idx + C) as int));
                lemma_chain_reach(s0, before, views(self.cells), c, idx as int, (idx + C) as int);
            }
        }
        proof {
            let s5 = views(self.cells);
            assert forall|j: int, k: int|
                0 <= j < n && 0 <= k < n && newly_shown(s0, s5, j) && s5[j].blank()
                    && #[trigger] side_by_side(c, n, j, k) implies shown_around(s5, c, j, k) by {
                if j == idx {
                    assert(s5[k] == s4[k] || (s4[k].covered && !s4[k].mine && s5[k] == s4[k].with_covered(false)));
                    assert(s4[k] == s3[k] || (s3[k].covered && !s3[k].mine && s4[k] == s3[k].with_covered(false)));
                    assert(s3[k] == s2[k] || (s2[k].covered && !s2[k].mine && s3[k] == s2[k].with_covered(false)));
                }
            }
        }
    }

    /// Reveals, from a blank cell, the cell `k` beside it: a numbered
    /// cell without a mine is shown when `vertical` holds or it is shown
    /// already; anything else goes on to `uncover_blank_neighbours`.
    fn spread_from(&mut self, k: usize, vertical: bool)
        requires
            grid_ok(C as int, N as int),
            k < N,
        ensures
            final(self).cursor == old(self).cursor,
            only_uncovers(views(old(self).cells), views(final(self).cells)),
            spreads(views(old(self).cells), views(final(self).cells), C as int),
            reached_from(views(old(self).cells), views(final(self).cells), C as int, k as int),
            newly_shown(views(old(self).cells), views(final(self).cells), k as int) ==> vertical
                || views(final(self).cells)[k as int].blank(),
            views(final(self).cells)[k as int].blank() ==> !views(final(self).cells)[k as int].covered,
            vertical && !views(final(self).cells)[k as int].mine ==> !views(final(self).cells)[k as int].covered,
        decreases covered_count(views(old(self).cells)), 1nat,
    {
        let adj = self.cells[k];
        if adj.neighbours() > 0 && !adj.mine() && (vertical || !adj.covered()) {
            if adj.covered() {
                let ghost a = views(self.cells);
                self.cells[k].toggle_covered();
                proof {
                    assert(views(self.cells) =~= a.update(k as int, a[k as int].with_covered(false)));
                }
            }
        } else {
            self.uncover_blank_neighbours(k);
        }
    }
}

impl<const C: usize, const N: usize> Board<C, N> {
    /// Moves the cursor one column left, from the first column round to the
    /// last of the same row.
    pub fn move_left(&mut self)
        requires
            old(self).wf(),
        ensures
            final(self).wf(),
            final(self).cells == old(self).cells,
            final(self).cursor == (old(self).cursor as int / C as int) * C as int + (old(self).cursor as int - 1) % C as int,
    {
        let ghost c = C as int;
        let cur = self.cursor as usize;
        let r = cur / C;
        let col = cur % C;
        proof {
            lemma_fundamental_div_mod(cur as int, c);
            lemma_fundamental_div_mod(N as int, c);
            assert(r * C + C <= N) by (nonlinear_arith)
                requires
                    cur as int == c * r + col,
                    N as int == c * (N as int / c),
                    cur < N,
                    0 <= col < c,
                    c == C,
            ;
            assert(c * r == r * c) by (nonlinear_arith);
        }
        let nc = if col == 0 {
            proof {
                assert((r - 1) * c == r * c - c) by (nonlinear_arith);
                lemma_fundamental_div_mod_converse_mod(cur - 1, c, r - 1, c - 1);
            }
            C - 1
        } else {
            proof {
                lemma_fundamental_div_mod_converse_mod(cur - 1, c, r as int, col - 1);
            }
            col - 1
        };
        self.cursor = (r * C + nc) as isize;
    }

    /// Moves the cursor one column right, from the last column round to the
    /// first of the same row.
    pub fn move_right(&mut self)
        requires
            old(self).wf(),
        ensures
            final(self).wf(),
            final(self).cells == old(self).cells,
            final(self).cursor == (old(self).cursor as int / C as int) * C as int + (old(self).cursor as int + 1) % C as int,
    {
        let ghost c = C as int;
        let cur = self.cursor as usize;
        let r = cur / C;
        let col = cur % C;
        proof {
            lemma_fundamental_div_mod(cur as int, c);
            lemma_fundamental_div_mod(N as int, c);
            assert(r * C + C <= N) by (nonlinear_arith)
                requires
                    cur as int == c * r + col,
                    N as int == c * (N as int / c),
                    cur < N,
                    0 <= col < c,
                    c == C,
            ;
            assert(c * r == r * c) by (nonlinear_arith);
        }
        let nc = if col == C - 1 {
            proof {
                assert((r + 1) * c == r * c + c) by (nonlinear_arith);
                lemma_fundamental_div_mod_converse_mod(cur + 1, c, r + 1, 0);
            }
            0
        } else {
            proof {
                lemma_fundamental_div_mod_converse_mod(cur + 1, c, r as int, col + 1);
            }
            col + 1
        };
        self.cursor = (r * C + nc) as isize;
    }

    /// Moves the cursor one row up, from the top row round to the bottom one.
    pub fn move_up(&mut self)
        requires
            old(self).wf(),
        ensures
            final(self).wf(),
            final(self).cells == old(self).cells,
            final(self).cursor == (old(self).cursor as int - C as int) % N as int,
    {
        let cur = self.cursor as usize;
        let next = if cur >= C {
            proof {
                lemma_fundamental_div_mod_converse_mod(cur - C, N as int, 0, cur - C);
            }
            cur - C
        } else {
            proof {
                lemma_fundamental_div_mod_converse_mod(cur - C, N as int, -1, cur + N - C);
            }
            cur + N - C
        };
        self.cursor = next as isize;
    }

    /// Moves the cursor one row down, from the bottom row round to the top one.
    pub fn move_down(&mut self)
        requires
            old(self).wf(),
        ensures
            final(self).wf(),
            final(self).cells == old(self).cells,
            final(self).cursor == (old(self).cursor as int + C as int) % N as int,
    {
        let cur = self.cursor as usize;
        let next = if cur + C < N {
            proof {
                lemma_fundamental_div_mod_converse_mod(cur + C, N as int, 0, cur + C);
            }
            cur + C
        } else {
            proof {
                lemma_fundamental_div_mod_converse_mod(cur + C, N as int, 1, cur + C - N);
            }
            cur + C - N
        };
        self.cursor = next as isize;
    }

    /// Flags the cell under the cursor, or takes its flag away.
    pub fn toggle_flag(&mut self)
        requires
            old(self).wf(),
        ensures
            final(self).cursor == old(self).cursor,
            views(final(self).cells) == views(old(self).cells).update(
                old(self).cursor as int,
                views(old(self).cells)[old(self).cursor as int].with_flagged(
                    !views(old(self).cells)[old(self).cursor as int].flagged,
                ),
            ),
    {
        let ghost a = views(self.cells);
        let cur = self.cursor as usize;
        self.cells[cur].toggle_flagged();
        proof {
            assert(views(self.cells) =~= a.update(cur as int, a[cur as int].with_flagged(!a[cur as int].flagged)));
        }
    }

    /// Reveals the cell under the cursor and tells whether it holds a mine.
    /// A mine leaves the board as it is; a numbered cell has its cover
    /// toggled; a blank one has its region uncovered.
    pub fn uncover_at_cursor(&mut self) -> (mine: bool)
        requires
            old(self).wf(),
        ensures
            final(self).cursor == old(self).cursor,
            mine == views(old(self).cells)[old(self).cursor as int].mine,
            mine ==> *final(self) == *old(self),
            !mine && views(old(self).cells)[old(self).cursor as int].neighbours > 0 ==> views(final(self).cells)
                == views(old(self).cells).update(
                old(self).cursor as int,
                views(old(self).cells)[old(self).cursor as int].with_covered(
                    !views(old(self).cells)[old(self).cursor as int].covered,
                ),
            ),
            !mine && views(old(self).cells)[old(self).cursor as int].neighbours == 0 ==> fill_result(
                views(old(self).cells),
                views(final(self).cells),
                C as int,
                old(self).cursor as int,
            ),
    {
        let ghost a = views(self.cells);
        let cur = self.cursor as usize;
        if self.cells[cur].mine() {
            true
        } else if self.cells[cur].neighbours() > 0 {
            self.cells[cur].toggle_covered();
            proof {
                assert(views(self.cells) =~= a.update(cur as int, a[cur as int].with_covered(!a[cur as int].covered)));
            }
            false
        } else {
            self.uncover_blank_neighbours(cur);
            false
        }
    }
}

} // verus!
