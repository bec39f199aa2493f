use vstd::prelude::*;
use crate::cell::CellView;
use crate::grid::{above, below, left_of, right_of, side_by_side, grid_ok, lemma_row_col};
use vstd::arithmetic::div_mod::lemma_fundamental_div_mod;

verus! {

/// Cell `k` is covered in `a` and shown in `b`.
pub open spec fn newly_shown(a: Seq<CellView>, b: Seq<CellView>, k: int) -> bool {
    a[k].covered && !b[k].covered
}

/// `b` differs from `a` only in cells that were covered, hold no mine, and are
/// shown in `b`.
pub open spec fn only_uncovers(a: Seq<CellView>, b: Seq<CellView>) -> bool {
    &&& a.len() == b.len()
    &&& forall|k: int|
        0 <= k < a.len() ==> #[trigger] b[k] == a[k] || (a[k].covered && !a[k].mine && b[k]
            == a[k].with_covered(false))
}

/// What `b` shows around cell `j`: every blank cell beside it, and every cell
/// without a mine above or below it.
pub open spec fn shown_around(b: Seq<CellView>, c: int, j: int, k: int) -> bool {
    &&& b[k].blank() ==> !b[k].covered
    &&& (above(c, j, k) || below(c, b.len() as int, j, k)) && !b[k].mine ==> !b[k].covered
}

/// Around each blank cell that `b` newly shows, except cell `x`, `b` shows
/// what `shown_around` asks.
pub open spec fn spreads_except(a: Seq<CellView>, b: Seq<CellView>, c: int, x: int) -> bool {
    forall|j: int, k: int|
        0 <= j < a.len() && 0 <= k < a.len() && j != x && newly_shown(a, b, j) && b[j].blank()
            && #[trigger] side_by_side(c, a.len() as int, j, k) ==> shown_around(b, c, j, k)
}

/// Around each blank cell that `b` newly shows, `b` shows what `shown_around` asks.
pub open spec fn spreads(a: Seq<CellView>, b: Seq<CellView>, c: int) -> bool {
    forall|j: int, k: int|
        0 <= j < a.len() && 0 <= k < a.len() && newly_shown(a, b, j) && b[j].blank()
            && #[trigger] side_by_side(c, a.len() as int, j, k) ==> shown_around(b, c, j, k)
}

/// Each cell that `b` newly shows, but `x`, lies beside a blank cell that `b`
/// newly shows; a numbered one lies above or below such a cell.
pub open spec fn reached_from(a: Seq<CellView>, b: Seq<CellView>, c: int, x: int) -> bool {
    forall|k: int|
        0 <= k < a.len() && k != x && #[trigger] newly_shown(a, b, k) ==> exists|j: int|
            0 <= j < a.len() && newly_shown(a, b, j) && b[j].blank() && #[trigger] side_by_side(
                c,
                a.len() as int,
                j,
                k,
            ) && (b[k].blank() || above(c, j, k) || below(c, a.len() as int, j, k))
}

/// What uncovering the blank region from `idx` does to the cells `a`, giving `b`.
pub open spec fn fill_result(a: Seq<CellView>, b: Seq<CellView>, c: int, idx: int) -> bool {
    &&& only_uncovers(a, b)
    &&& spreads(a, b, c)
    &&& reached_from(a, b, c, idx)
    &&& a[idx].covered && a[idx].blank() ==> !b[idx].covered
    &&& !(a[idx].covered && a[idx].blank()) ==> b == a
}

/// How many cells are covered.
pub open spec fn covered_count(s: Seq<CellView>) -> nat
    decreases s.len(),
{
    if s.len() == 0 {
        0
    } else {
        covered_count(s.drop_last()) + if s.last().covered {
            1nat
        } else {
            0nat
        }
    }
}

/// Uncovering never adds to the covered cells, and uncovering one takes one away.
pub proof fn lemma_covered_count(a: Seq<CellView>, b: Seq<CellView>, k: int)
    requires
        only_uncovers(a, b),
    ensures
        covered_count(b) <= covered_count(a),
        0 <= k < a.len() && newly_shown(a, b, k) ==> covered_count(b) < covered_count(a),
    decreases a.len(),
{
    if a.len() > 0 {
        let a2 = a.drop_last();
        let b2 = b.drop_last();
        assert forall|m: int| 0 <= m < a2.len() implies #[trigger] b2[m] == a2[m] || (a2[m].covered
            && !a2[m].mine && b2[m] == a2[m].with_covered(false)) by {
            assert(b2[m] == b[m] && a2[m] == a[m]);
        }
        lemma_covered_count(a2, b2, k);
        assert(b[a.len() - 1] == a[a.len() - 1] || (a[a.len() - 1].covered && !a[a.len() - 1].mine
            && b[a.len() - 1] == a[a.len() - 1].with_covered(false)));
    }
}

/// Two steps that each only uncover, and spread, make one such step.
pub proof fn lemma_chain(a: Seq<CellView>, b: Seq<CellView>, d: Seq<CellView>, c: int, x: int)
    requires
        only_uncovers(a, b),
        spreads_except(a, b, c, x),
        only_uncovers(b, d),
        spreads(b, d, c),
    ensures
        only_uncovers(a, d),
        spreads_except(a, d, c, x),
{
    assert forall|k: int| 0 <= k < a.len() implies #[trigger] d[k] == a[k] || (a[k].covered
        && !a[k].mine && d[k] == a[k].with_covered(false)) by {
        assert(b[k] == a[k] || (a[k].covered && !a[k].mine && b[k] == a[k].with_covered(false)));
        assert(d[k] == b[k] || (b[k].covered && !b[k].mine && d[k] == b[k].with_covered(false)));
    }
    assert forall|j: int, k: int|
        0 <= j < a.len() && 0 <= k < a.len() && j != x && newly_shown(a, d, j) && d[j].blank()
            && #[trigger] side_by_side(c, a.len() as int, j, k) implies shown_around(d, c, j, k) by {
        assert(b[j] == a[j] || (a[j].covered && !a[j].mine && b[j] == a[j].with_covered(false)));
        assert(d[j] == b[j] || (b[j].covered && !b[j].mine && d[j] == b[j].with_covered(false)));
        assert(b[k] == a[k] || (a[k].covered && !a[k].mine && b[k] == a[k].with_covered(false)));
        assert(d[k] == b[k] || (b[k].covered && !b[k].mine && d[k] == b[k].with_covered(false)));
        if newly_shown(a, b, j) {
            assert(shown_around(b, c, j, k));
        } else {
            assert(newly_shown(b, d, j));
        }
    }
}

/// A step from `b` to `d` that reaches out from cell `y` beside the blank cell
/// `x`, after a step from `a` to `b` reaching out from `x`, makes one step from
/// `a` to `d` reaching out from `x`.
pub proof fn lemma_chain_reach(
    a: Seq<CellView>,
    b: Seq<CellView>,
    d: Seq<CellView>,
    c: int,
    x: int,
    y: int,
)
    requires
        only_uncovers(a, b),
        only_uncovers(b, d),
        reached_from(a, b, c, x),
        reached_from(b, d, c, y),
        0 <= x < a.len(),
        0 <= y < a.len(),
        newly_shown(a, b, x),
        b[x].blank(),
        side_by_side(c, a.len() as int, x, y),
        newly_shown(b, d, y) ==> d[y].blank() || above(c, x, y) || below(c, a.len() as int, x, y),
    ensures
        reached_from(a, d, c, x),
{
    let n = a.len() as int;
    assert forall|k: int| 0 <= k < n && k != x && #[trigger] newly_shown(a, d, k) implies exists|j: int|
        0 <= j < n && newly_shown(a, d, j) && d[j].blank() && #[trigger] side_by_side(c, n, j, k) && (
        d[k].blank() || above(c, j, k) || below(c, n, j, k)) by {
        assert(b[k] == a[k] || (a[k].covered && !a[k].mine && b[k] == a[k].with_covered(false)));
        assert(d[k] == b[k] || (b[k].covered && !b[k].mine && d[k] == b[k].with_covered(false)));
        assert(d[x] == b[x] || (b[x].covered && !b[x].mine && d[x] == b[x].with_covered(false)));
        if newly_shown(a, b, k) {
            let j = choose|j: int|
                0 <= j < n && newly_shown(a, b, j) && b[j].blank() && #[trigger] side_by_side(c, n, j, k)
                    && (b[k].blank() || above(c, j, k) || below(c, n, j, k));
            assert(d[j] == b[j] || (b[j].covered && !b[j].mine && d[j] == b[j].with_covered(false)));
            assert(newly_shown(a, d, j) && d[j].blank());
        } else if k == y {
            assert(newly_shown(a, d, x) && d[x].blank());
        } else {
            assert(newly_shown(b, d, k));
            let j = choose|j: int|
                0 <= j < n && newly_shown(b, d, j) && d[j].blank() && #[trigger] side_by_side(c, n, j, k)
                    && (d[k].blank() || above(c, j, k) || below(c, n, j, k));
            assert(b[j] == a[j] || (a[j].covered && !a[j].mine && b[j] == a[j].with_covered(false)));
            assert(newly_shown(a, d, j));
        }
    }
}

/// Every cell beside a shown cell is shown too.
pub open spec fn closed_under_sides(b: Seq<CellView>, c: int) -> bool {
    forall|j: int, k: int|
        0 <= j < b.len() && 0 <= k < b.len() && !b[j].covered && #[trigger] side_by_side(
            c,
            b.len() as int,
            j,
            k,
        ) ==> !b[k].covered
}

/// Row `r` is shown from column `t` down to column 0.
proof fn lemma_sweep_left(b: Seq<CellView>, c: int, r: int, t: int)
    requires
        grid_ok(c, b.len() as int),
        closed_under_sides(b, c),
        0 <= t < c,
        0 <= r * c + t < b.len(),
        !b[r * c + t].covered,
    ensures
        forall|u: int| 0 <= u <= t ==> !(#[trigger] b[r * c + u]).covered,
    decreases t,
{
    if t > 0 {
        lemma_row_col(c, r * c + t, r, t);
        assert(left_of(c, r * c + t, r * c + t - 1));
        assert(side_by_side(c, b.len() as int, r * c + t, r * c + (t - 1)));
        lemma_sweep_left(b, c, r, t - 1);
    }
}

/// Row `r` is shown from column `t` up to the last column.
proof fn lemma_sweep_right(b: Seq<CellView>, c: int, r: int, t: int)
    requires
        grid_ok(c, b.len() as int),
        closed_under_sides(b, c),
        0 <= t < c,
        0 <= r,
        (r + 1) * c <= b.len(),
        !b[r * c + t].covered,
    ensures
        forall|u: int| t <= u < c ==> !(#[trigger] b[r * c + u]).covered,
    decreases c - t,
{
    assert((r + 1) * c == r * c + c) by (nonlinear_arith);
    assert(r * c >= 0) by (nonlinear_arith)
        requires
            r >= 0,
            c > 0,
    ;
    if t < c - 1 {
        lemma_row_col(c, r * c + t, r, t);
        assert(right_of(c, r * c + t, r * c + t + 1));
        assert(side_by_side(c, b.len() as int, r * c + t, r * c + (t + 1)));
        lemma_sweep_right(b, c, r, t + 1);
    }
}

/// Every row from `r` up to row 0 is shown, given that row `r` is.
proof fn lemma_sweep_up(b: Seq<CellView>, c: int, r: int)
    requires
        grid_ok(c, b.len() as int),
        closed_under_sides(b, c),
        0 <= r,
        (r + 1) * c <= b.len(),
        forall|u: int| 0 <= u < c ==> !(#[trigger] b[r * c + u]).covered,
    ensures
        forall|q: int, u: int| 0 <= q <= r && 0 <= u < c ==> !(#[trigger] b[q * c + u]).covered,
    decreases r,
{
    if r > 0 {
        assert((r - 1) * c == r * c - c) by (nonlinear_arith);
        assert(r * c >= c) by (nonlinear_arith)
            requires
                r >= 1,
                c > 0,
        ;
        assert((r + 1) * c == r * c + c) by (nonlinear_arith);
        assert forall|u: int| 0 <= u < c implies !(#[trigger] b[(r - 1) * c + u]).covered by {
            assert(!b[r * c + u].covered);
            assert(above(c, r * c + u, (r - 1) * c + u));
            assert(side_by_side(c, b.len() as int, r * c + u, (r - 1) * c + u));
        }
        lemma_sweep_up(b, c, r - 1);
    }
}

/// Every row from `r` down to the last is shown, given that row `r` is.
proof fn lemma_sweep_down(b: Seq<CellView>, c: int, r: int)
    requires
        grid_ok(c, b.len() as int),
        closed_under_sides(b, c),
        0 <= r,
        (r + 1) * c <= b.len(),
        forall|u: int| 0 <= u < c ==> !(#[trigger] b[r * c + u]).covered,
    ensures
        forall|q: int, u: int|
            r <= q && (q + 1) * c <= b.len() && 0 <= u < c ==> !(#[trigger] b[q * c + u]).covered,
    decreases b.len() - r,
{
    assert((r + 1) * c == r * c + c) by (nonlinear_arith);
    assert((r + 2) * c == r * c + 2 * c) by (nonlinear_arith);
    assert(r * c >= 0) by (nonlinear_arith)
        requires
            r >= 0,
            c > 0,
    ;
    assert(r < b.len()) by (nonlinear_arith)
        requires
            (r + 1) * c <= b.len(),
            c > 0,
            r >= 0,
    ;
    if (r + 2) * c <= b.len() {
        assert forall|u: int| 0 <= u < c implies !(#[trigger] b[(r + 1) * c + u]).covered by {
            assert(!b[r * c + u].covered);
            assert(below(c, b.len() as int, r * c + u, (r + 1) * c + u));
            assert(side_by_side(c, b.len() as int, r * c + u, (r + 1) * c + u));
        }
        lemma_sweep_down(b, c, r + 1);
    }
    assert forall|q: int, u: int|
        r <= q && (q + 1) * c <= b.len() && 0 <= u < c implies !(#[trigger] b[q * c + u]).covered by {
        if q > r {
            assert((q + 1) * c >= (r + 2) * c) by (nonlinear_arith)
                requires
                    q >= r + 1,
                    c > 0,
            ;
        }
    }
}

/// On a grid with no mines, all covered, uncovering the blank region from any
/// cell shows every cell.
pub proof fn lemma_fill_shows_mine_free_grid(a: Seq<CellView>, b: Seq<CellView>, c: int, idx: int)
    requires
        grid_ok(c, a.len() as int),
        0 <= idx < a.len(),
        forall|k: int| 0 <= k < a.len() ==> (#[trigger] a[k]).covered && a[k].blank(),
        fill_result(a, b, c, idx),
    ensures
        forall|k: int| 0 <= k < b.len() ==> !(#[trigger] b[k]).covered,
{
    let n = a.len() as int;
    assert forall|k: int| 0 <= k < n implies (#[trigger] b[k]).blank() by {
        assert(b[k] == a[k] || (a[k].covered && !a[k].mine && b[k] == a[k].with_covered(false)));
    }
    assert forall|j: int, k: int|
        0 <= j < n && 0 <= k < n && !b[j].covered && #[trigger] side_by_side(c, n, j, k) implies !b[k].covered by {
        assert(a[j].covered);
        assert(b[j].blank());
        assert(b[k].blank());
        assert(shown_around(b, c, j, k));
    }
    assert(closed_under_sides(b, c));
    let r = idx / c;
    let t = idx % c;
    lemma_fundamental_div_mod(idx, c);
    lemma_fundamental_div_mod(n, c);
    assert(c * r == r * c) by (nonlinear_arith);
    assert(r >= 0) by (nonlinear_arith)
        requires
            idx >= 0,
            c > 0,
            idx == c * r + t,
            0 <= t < c,
    ;
    assert((r + 1) * c <= n) by (nonlinear_arith)
        requires
            idx == c * r + t,
            n == c * (n / c),
            idx < n,
            0 <= t < c,
            c > 0,
    ;
    lemma_sweep_left(b, c, r, t);
    lemma_sweep_right(b, c, r, t);
    assert(forall|u: int| 0 <= u < c ==> !(#[trigger] b[r * c + u]).covered);
    lemma_sweep_up(b, c, r);
    lemma_sweep_down(b, c, r);
    assert forall|k: int| 0 <= k < b.len() implies !(#[trigger] b[k]).covered by {
        let q = k / c;
        let u = k % c;
        lemma_fundamental_div_mod(k, c);
        assert(c * q == q * c) by (nonlinear_arith);
        assert(q >= 0) by (nonlinear_arith)
            requires
                k >= 0,
                c > 0,
                k == c * q + u,
                0 <= u < c,
        ;
        assert((q + 1) * c <= n) by (nonlinear_arith)
            requires
                k == c * q + u,
                n == c * (n / c),
                k < n,
                0 <= u < c,
                c > 0,
        ;
        assert(!b[q * c + u].covered);
    }
}

} // verus!
