//! The geometry of the grid: cells, neighbours, moves and paths, as
//! mathematical definitions, with the facts about them that the rest of the
//! library builds on.

use vstd::arithmetic::div_mod::lemma_fundamental_div_mod;
use vstd::arithmetic::div_mod::lemma_fundamental_div_mod_converse;
use vstd::arithmetic::div_mod::lemma_mod_bound;
use vstd::prelude::*;

verus! {

/// Number of cells of a grid of side `dim`. Cells are numbered row by row
/// from `0`.
pub open spec fn cell_count(dim: nat) -> nat {
    dim * dim
}

/// Column of a cell.
pub open spec fn column_of(dim: nat, cell: int) -> int {
    cell % (dim as int)
}

/// Row of a cell.
pub open spec fn row_of(dim: nat, cell: int) -> int {
    cell / (dim as int)
}

/// Two cells are neighbours when they differ and lie at most one column and
/// at most one row apart.
pub open spec fn adjacent(dim: nat, a: int, b: int) -> bool {
    &&& a != b
    &&& -1 <= column_of(dim, b) - column_of(dim, a) <= 1
    &&& -1 <= row_of(dim, b) - row_of(dim, a) <= 1
}

/// A path may go on to `cell`: the cell is on the grid, the path has not been
/// there, and it is a neighbour of the path's last cell. From the empty path
/// every cell is a move.
pub open spec fn is_move(dim: nat, path: Seq<u32>, cell: u32) -> bool {
    &&& cell < cell_count(dim)
    &&& !path.contains(cell)
    &&& path.len() > 0 ==> adjacent(dim, path.last() as int, cell as int)
}

/// All cells of the grid, in ascending order.
pub open spec fn cells(dim: nat) -> Seq<u32> {
    Seq::new(cell_count(dim), |i: int| i as u32)
}

/// The moves open at the end of `path`, in ascending order.
pub open spec fn valid_moves(dim: nat, path: Seq<u32>) -> Seq<u32> {
    cells(dim).filter(|cell: u32| is_move(dim, path, cell))
}

/// A sequence of cells is a path when every cell is on the grid, no cell
/// occurs twice, and each cell is a neighbour of the one before it.
pub open spec fn is_path(dim: nat, path: Seq<u32>) -> bool {
    &&& forall|i: int| 0 <= i < path.len() ==> path[i] < cell_count(dim)
    &&& forall|i: int, j: int| 0 <= i < j < path.len() ==> path[i] != path[j]
    &&& forall|i: int| 0 < i < path.len() ==> adjacent(dim, path[i - 1] as int, #[trigger] path[i] as int)
}

/// Strictly ascending order.
pub open spec fn ascending(s: Seq<u32>) -> bool {
    forall|i: int, j: int| 0 <= i < j < s.len() ==> s[i] < s[j]
}

/// Two strictly ascending sequences with the same members are equal.
pub proof fn lemma_ascending_unique(a: Seq<u32>, b: Seq<u32>)
    requires
        ascending(a),
        ascending(b),
        forall|x: u32| a.contains(x) <==> b.contains(x),
    ensures
        a == b,
    decreases a.len(),
{
    if a.len() == 0 {
        if b.len() > 0 {
            assert(b.contains(b[0]));
        }
        assert(a =~= b);
    } else {
        assert(a.contains(a.last()));
        assert(b.len() > 0);
        assert(b.contains(b.last()));
        // The two largest members coincide.
        let ia = choose|i: int| 0 <= i < a.len() && a[i] == b.last();
        let ib = choose|i: int| 0 <= i < b.len() && b[i] == a.last();
        assert(a.last() == b.last());
        let a0 = a.drop_last();
        let b0 = b.drop_last();
        assert forall|x: u32| a0.contains(x) <==> b0.contains(x) by {
            if a0.contains(x) {
                let i = choose|i: int| 0 <= i < a0.len() && a0[i] == x;
                assert(a[i] == x);
                assert(a.contains(x));
                let j = choose|j: int| 0 <= j < b.len() && b[j] == x;
                assert(x < a.last());
                assert(j < b.len() - 1);
                assert(b0[j] == x);
            }
            if b0.contains(x) {
                let i = choose|i: int| 0 <= i < b0.len() && b0[i] == x;
                assert(b[i] == x);
                assert(b.contains(x));
                let j = choose|j: int| 0 <= j < a.len() && a[j] == x;
                assert(x < b.last());
                assert(j < a.len() - 1);
                assert(a0[j] == x);
            }
        }
        lemma_ascending_unique(a0, b0);
        assert(a =~= a0.push(a.last()));
        assert(b =~= b0.push(b.last()));
    }
}

/// The cell in column `x` of row `y` is on the grid, and has that column and
/// that row.
pub proof fn lemma_cell_at(dim: nat, x: int, y: int)
    requires
        0 <= x < dim,
        0 <= y < dim,
    ensures
        0 <= x + y * dim < cell_count(dim),
        column_of(dim, x + y * dim) == x,
        row_of(dim, x + y * dim) == y,
{
    let d = dim as int;
    assert(0 <= y * d && y * d + d <= d * d) by (nonlinear_arith)
        requires
            0 <= y < d,
    ;
    lemma_fundamental_div_mod_converse(x + y * d, d, y, x);
}

/// A cell of the grid lies in a column and a row of the grid.
pub proof fn lemma_cell_coordinates(dim: nat, cell: int)
    requires
        0 <= cell < cell_count(dim),
    ensures
        0 <= column_of(dim, cell) < dim,
        0 <= row_of(dim, cell) < dim,
        cell == column_of(dim, cell) + row_of(dim, cell) * dim,
{
    let d = dim as int;
    assert(d > 0) by (nonlinear_arith)
        requires
            0 <= cell < d * d,
            d >= 0,
    ;
    lemma_fundamental_div_mod(cell, d);
    lemma_mod_bound(cell, d);
    let q = cell / d;
    let r = cell % d;
    assert(d * q == q * d) by (nonlinear_arith);
    assert(0 <= q < d) by (nonlinear_arith)
        requires
            0 <= cell < d * d,
            cell == q * d + r,
            0 <= r < d,
    ;
}

/// Keeping the members of an ascending sequence that meet a condition gives
/// an ascending sequence of exactly those members.
proof fn lemma_filter_ascending(s: Seq<u32>, keep: spec_fn(u32) -> bool)
    requires
        ascending(s),
    ensures
        ascending(s.filter(keep)),
        forall|x: u32| #[trigger] s.filter(keep).contains(x) <==> s.contains(x) && keep(x),
    decreases s.len(),
{
    reveal(Seq::filter);
    let kept = s.filter(keep);
    if s.len() > 0 {
        let front = s.drop_last();
        let last = s.last();
        lemma_filter_ascending(front, keep);
        let kept_front = front.filter(keep);
        assert forall|x: u32| kept.contains(x) <==> s.contains(x) && keep(x) by {
            if kept.contains(x) {
                let i = choose|i: int| 0 <= i < kept.len() && kept[i] == x;
                if keep(last) && i == kept.len() - 1 {
                    assert(s[s.len() - 1] == x);
                } else {
                    assert(kept_front[i] == x);
                    assert(front.filter(keep).contains(x));
                    let j = choose|j: int| 0 <= j < front.len() && front[j] == x;
                    assert(s[j] == x);
                }
            }
            if s.contains(x) && keep(x) {
                let j = choose|j: int| 0 <= j < s.len() && s[j] == x;
                if j == s.len() - 1 {
                    assert(kept[kept.len() - 1] == x);
                } else {
                    assert(front[j] == x);
                    assert(front.contains(x));
                    assert(front.filter(keep).contains(x));
                    let i = choose|i: int| 0 <= i < kept_front.len() && kept_front[i] == x;
                    assert(kept[i] == x);
                }
            }
        }
        assert forall|i: int, j: int| 0 <= i < j < kept.len() implies kept[i] < kept[j] by {
            if keep(last) && j == kept.len() - 1 {
                assert(kept_front[i] == kept[i]);
                assert(front.filter(keep).contains(kept[i]));
                let k = choose|k: int| 0 <= k < front.len() && front[k] == kept[i];
                assert(s[k] < s[s.len() - 1]);
            } else {
                assert(kept_front[i] < kept_front[j]);
            }
        }
    }
}

/// The open moves are in strictly ascending order, and a cell is among them
/// exactly when it is a move.
pub proof fn lemma_valid_moves(dim: nat, path: Seq<u32>)
    requires
        cell_count(dim) <= u32::MAX,
    ensures
        ascending(valid_moves(dim, path)),
        forall|cell: u32| valid_moves(dim, path).contains(cell) <==> is_move(dim, path, cell),
{
    let all = cells(dim);
    let keep = |cell: u32| is_move(dim, path, cell);
    lemma_filter_ascending(all, keep);
    assert forall|cell: u32| valid_moves(dim, path).contains(cell) <==> is_move(
        dim,
        path,
        cell,
    ) by {
        assert(all.filter(keep).contains(cell) <==> all.contains(cell) && keep(cell));
        if is_move(dim, path, cell) {
            assert(all[cell as int] == cell);
            assert(all.contains(cell));
        }
    }
}

/// From the empty path every cell is open, in ascending order.
pub proof fn lemma_moves_of_empty_path(dim: nat)
    requires
        cell_count(dim) <= u32::MAX,
    ensures
        valid_moves(dim, Seq::empty()) == cells(dim),
{
    let path = Seq::<u32>::empty();
    let all = cells(dim);
    lemma_valid_moves(dim, path);
    assert forall|cell: u32| all.contains(cell) <==> valid_moves(dim, path).contains(cell) by {
        if all.contains(cell) {
            let i = choose|i: int| 0 <= i < all.len() && all[i] == cell;
            assert(is_move(dim, path, cell));
        }
        if is_move(dim, path, cell) {
            assert(all[cell as int] == cell);
        }
    }
    lemma_ascending_unique(valid_moves(dim, path), all);
}

} // verus!
