//! Listing every walk on the grid: the depth-first, pre-order traversal of the
//! tree whose root is a starting path and whose children are a path's
//! one-step extensions, in ascending order of the cell stepped on.

use crate::board::{path_views, Board, BoardView};
use crate::error::BoardError;
use crate::grid::{adjacent, cell_count, cells, is_move, is_path, valid_moves};
use vstd::prelude::*;

verus! {

/// Number of cells that `path` has not visited. It bounds how far a walk
/// from `path` can still go.
pub open spec fn free_cells(dim: nat, path: Seq<u32>) -> nat {
    cells(dim).filter(|cell: u32| !path.contains(cell)).len()
}

/// The walks that leave `path` by one of `steps`, in the order of `steps`.
/// A walk is followed at once by all the walks that extend it, before the
/// next step is taken up; a step that is no move from `path` leads nowhere.
pub open spec fn walks_through(dim: nat, path: Seq<u32>, steps: Seq<u32>) -> Seq<Seq<u32>>
    decreases free_cells(dim, path), steps.len(),
    via walks_through_terminates
{
    if steps.len() == 0 {
        Seq::empty()
    } else {
        let earlier = walks_through(dim, path, steps.drop_last());
        let next = path.push(steps.last());
        if is_move(dim, path, steps.last()) {
            earlier + seq![next] + walks_through(dim, next, cells(dim))
        } else {
            earlier
        }
    }
}

#[via_fn]
proof fn walks_through_terminates(dim: nat, path: Seq<u32>, steps: Seq<u32>) {
    if steps.len() > 0 && is_move(dim, path, steps.last()) {
        lemma_move_takes_a_cell(dim, path, steps.last());
    }
}

/// Every path that properly extends `path`, each exactly once, in
/// depth-first pre-order with the cells stepped on in ascending order.
pub open spec fn all_seqs(dim: nat, path: Seq<u32>) -> Seq<Seq<u32>> {
    walks_through(dim, path, cells(dim))
}

/// Among the members of `s`, a path that has gone on to `cell` has no more
/// unvisited ones than it had before, and fewer if `cell` was one of them.
proof fn lemma_fewer_unvisited(s: Seq<u32>, path: Seq<u32>, cell: u32, at: int)
    ensures
        s.filter(|c: u32| !path.push(cell).contains(c)).len() <= s.filter(
            |c: u32| !path.contains(c),
        ).len(),
        0 <= at < s.len() && s[at] == cell && !path.contains(cell) ==> s.filter(
            |c: u32| !path.push(cell).contains(c),
        ).len() < s.filter(|c: u32| !path.contains(c)).len(),
    decreases s.len(),
{
    reveal(Seq::filter);
    let next = path.push(cell);
    if s.len() > 0 {
        lemma_fewer_unvisited(s.drop_last(), path, cell, at);
        let c = s.last();
        if path.contains(c) {
            let i = choose|i: int| 0 <= i < path.len() && path[i] == c;
            assert(next[i] == c);
        }
        assert(next[path.len() as int] == cell);
        if 0 <= at < s.len() - 1 {
            assert(s.drop_last()[at] == s[at]);
        }
    }
}

/// A move uses up one free cell.
pub proof fn lemma_move_takes_a_cell(dim: nat, path: Seq<u32>, cell: u32)
    requires
        is_move(dim, path, cell),
    ensures
        free_cells(dim, path.push(cell)) < free_cells(dim, path),
{
    assert(cells(dim)[cell as int] == cell);
    lemma_fewer_unvisited(cells(dim), path, cell, cell as int);
}

/// The walks through two runs of steps, one after the other, are the walks
/// through the first run followed by those through the second.
pub proof fn lemma_walks_through_concat(dim: nat, path: Seq<u32>, first: Seq<u32>, second: Seq<u32>)
    ensures
        walks_through(dim, path, first + second) == walks_through(dim, path, first)
            + walks_through(dim, path, second),
    decreases second.len(),
{
    if second.len() == 0 {
        assert(first + second =~= first);
        assert(walks_through(dim, path, first) + Seq::<Seq<u32>>::empty() =~= walks_through(
            dim,
            path,
            first,
        ));
    } else {
        let whole = first + second;
        assert(whole.drop_last() =~= first + second.drop_last());
        assert(whole.last() == second.last());
        lemma_walks_through_concat(dim, path, first, second.drop_last());
        let a = walks_through(dim, path, first);
        let b = walks_through(dim, path, second.drop_last());
        if is_move(dim, path, second.last()) {
            let next = path.push(second.last());
            let tail = seq![next] + walks_through(dim, next, cells(dim));
            assert((a + b) + seq![next] + walks_through(dim, next, cells(dim)) =~= a + (b
                + seq![next] + walks_through(dim, next, cells(dim))));
        }
    }
}

/// The walks through a single step that is a move: the extended path, then
/// everything that extends it.
pub proof fn lemma_walks_through_move(dim: nat, path: Seq<u32>, cell: u32)
    requires
        is_move(dim, path, cell),
    ensures
        walks_through(dim, path, seq![cell]) == seq![path.push(cell)] + all_seqs(
            dim,
            path.push(cell),
        ),
{
    let steps = seq![cell];
    assert(steps.drop_last() =~= Seq::<u32>::empty());
    assert(steps.last() == cell);
    assert(walks_through(dim, path, steps.drop_last()) =~= Seq::<Seq<u32>>::empty());
    let next = path.push(cell);
    assert(Seq::<Seq<u32>>::empty() + seq![next] + walks_through(dim, next, cells(dim))
        =~= seq![next] + all_seqs(dim, next));
}

/// Steps that are no moves may be left out.
proof fn lemma_walks_through_moves_only(dim: nat, path: Seq<u32>, steps: Seq<u32>)
    ensures
        walks_through(dim, path, steps) == walks_through(
            dim,
            path,
            steps.filter(|cell: u32| is_move(dim, path, cell)),
        ),
    decreases steps.len(),
{
    reveal(Seq::filter);
    let keep = |cell: u32| is_move(dim, path, cell);
    if steps.len() > 0 {
        lemma_walks_through_moves_only(dim, path, steps.drop_last());
        if is_move(dim, path, steps.last()) {
            let kept = steps.drop_last().filter(keep);
            assert(steps.filter(keep) == kept.push(steps.last()));
            assert(kept.push(steps.last()).drop_last() =~= kept);
        }
    }
}

/// The listing, one step unfolded: the walks from `path` are the walks
/// through its open moves.
pub proof fn lemma_all_seqs_by_moves(dim: nat, path: Seq<u32>)
    ensures
        all_seqs(dim, path) == walks_through(dim, path, valid_moves(dim, path)),
{
    lemma_walks_through_moves_only(dim, path, cells(dim));
}

/// `longer` goes on from `path`: it has more cells, and starts with those of
/// `path`.
pub open spec fn extends(path: Seq<u32>, longer: Seq<u32>) -> bool {
    &&& path.len() < longer.len()
    &&& longer.take(path.len() as int) == path
}

/// A path that goes on to one of its moves is a path.
pub proof fn lemma_move_extends_path(dim: nat, path: Seq<u32>, cell: u32)
    requires
        is_path(dim, path),
        is_move(dim, path, cell),
    ensures
        is_path(dim, path.push(cell)),
        extends(path, path.push(cell)),
{
    let next = path.push(cell);
    assert forall|i: int, j: int| 0 <= i < j < next.len() implies next[i] != next[j] by {
        if j == path.len() {
            assert(path[i] == next[i]);
            assert(path.contains(path[i]));
        } else {
            assert(path[i] != path[j]);
        }
    }
    assert forall|i: int| 0 < i < next.len() implies adjacent(
        dim,
        next[i - 1] as int,
        #[trigger] next[i] as int,
    ) by {
        if i < path.len() {
            assert(adjacent(dim, path[i - 1] as int, path[i] as int));
        }
    }
    assert(next.take(path.len() as int) =~= path);
}

/// Walks from a path are paths, and go on from it.
pub proof fn lemma_walks_through_are_paths(dim: nat, path: Seq<u32>, steps: Seq<u32>)
    requires
        is_path(dim, path),
    ensures
        forall|i: int|
            0 <= i < walks_through(dim, path, steps).len() ==> is_path(
                dim,
                #[trigger] walks_through(dim, path, steps)[i],
            ) && extends(path, walks_through(dim, path, steps)[i]),
    decreases free_cells(dim, path), steps.len(),
{
    if steps.len() > 0 {
        let earlier = walks_through(dim, path, steps.drop_last());
        lemma_walks_through_are_paths(dim, path, steps.drop_last());
        if is_move(dim, path, steps.last()) {
            let next = path.push(steps.last());
            let beyond = walks_through(dim, next, cells(dim));
            lemma_move_extends_path(dim, path, steps.last());
            lemma_move_takes_a_cell(dim, path, steps.last());
            lemma_walks_through_are_paths(dim, next, cells(dim));
            let all = walks_through(dim, path, steps);
            assert(all == earlier + seq![next] + beyond);
            assert forall|i: int| 0 <= i < all.len() implies is_path(dim, #[trigger] all[i])
                && extends(path, all[i]) by {
                if i < earlier.len() {
                    assert(all[i] == earlier[i]);
                } else if i == earlier.len() {
                    assert(all[i] == next);
                } else {
                    let far = beyond[i - earlier.len() - 1];
                    assert(all[i] == far);
                    assert(extends(next, far));
                    assert(far.take(path.len() as int) =~= far.take(next.len() as int).take(
                        path.len() as int,
                    ));
                }
            }
        }
    }
}

/// What is still to be listed while paths wait on a stack, the next one on
/// top: each waiting path, followed by everything that extends it.
spec fn pending(dim: nat, stack: Seq<Seq<u32>>) -> Seq<Seq<u32>>
    decreases stack.len(),
{
    if stack.len() == 0 {
        Seq::empty()
    } else {
        seq![stack.last()] + all_seqs(dim, stack.last()) + pending(dim, stack.drop_last())
    }
}

/// Every waiting path has a last cell, and it is on the grid.
spec fn end_on_grid(dim: nat, stack: Seq<Vec<u32>>) -> bool {
    forall|k: int|
        0 <= k < stack.len() ==> (#[trigger] stack[k])@.len() > 0 && stack[k]@.last() < cell_count(
            dim,
        )
}

impl BoardView {
    /// What a query for the walks from `path` answers.
    pub open spec fn seqs_outcome(self, path: Seq<u32>) -> Result<Seq<Seq<u32>>, BoardError> {
        if !self.populated() {
            Err(BoardError::UnpopulatedGrid)
        } else if !is_path(self.dim, path) {
            Err(BoardError::InvalidPath)
        } else {
            Ok(all_seqs(self.dim, path))
        }
    }
}

impl Board {
    /// Puts the one-step extensions of `path` on the stack, the smallest step
    /// on top.
    fn push_extensions(&self, stack: &mut Vec<Vec<u32>>, path: &Vec<u32>)
        requires
            path@.len() > 0 ==> path@.last() < cell_count(self@.dim),
            end_on_grid(self@.dim, old(stack)@),
        ensures
            pending(self@.dim, path_views(final(stack)@)) == all_seqs(self@.dim, path@) + pending(
                self@.dim,
                path_views(old(stack)@),
            ),
            end_on_grid(self@.dim, final(stack)@),
    {
        let ghost dim = self@.dim;
        let ghost below = pending(dim, path_views(stack@));
        let moves = self.open_moves(path);
        proof {
            lemma_all_seqs_by_moves(dim, path@);
        }
        let mut i: usize = moves.len();
        assert(moves@.subrange(i as int, moves@.len() as int) =~= Seq::<u32>::empty());
        assert(Seq::<Seq<u32>>::empty() + below =~= below);
        while i > 0
            invariant
                i <= moves.len(),
                dim == self@.dim,
                moves@ == valid_moves(dim, path@),
                forall|cell: u32| moves@.contains(cell) <==> is_move(dim, path@, cell),
                pending(dim, path_views(stack@)) == walks_through(
                    dim,
                    path@,
                    moves@.subrange(i as int, moves@.len() as int),
                ) + below,
                end_on_grid(dim, stack@),
            decreases i,
        {
            let ghost rest = moves@.subrange(i as int, moves@.len() as int);
            let ghost waiting = path_views(stack@);
            i -= 1;
            let cell = moves[i];
            let mut next = path.clone();
            next.push(cell);
            stack.push(next);
            proof {
                assert(moves@.contains(cell));
                assert(next@ =~= path@.push(cell));
                let now = path_views(stack@);
                assert(now.drop_last() =~= waiting);
                assert(now.last() == next@);
                let here = moves@.subrange(i as int, moves@.len() as int);
                assert(here =~= seq![cell] + rest);
                lemma_walks_through_concat(dim, path@, seq![cell], rest);
                lemma_walks_through_move(dim, path@, cell);
                assert(seq![next@] + all_seqs(dim, next@) + (walks_through(dim, path@, rest)
                    + below) =~= (seq![next@] + all_seqs(dim, next@)) + walks_through(
                    dim,
                    path@,
                    rest,
                ) + below);
            }
        }
        assert(moves@.subrange(0, moves@.len() as int) =~= moves@);
    }

    /// Every path that properly extends `start`, in pre-order. Works through
    /// a stack of waiting paths, so the depth of the search costs no call
    /// stack.
    fn walk(&self, start: &Vec<u32>) -> (found: Vec<Vec<u32>>)
        requires
            start@.len() > 0 ==> start@.last() < cell_count(self@.dim),
        ensures
            path_views(found@) == all_seqs(self@.dim, start@),
    {
        let ghost dim = self@.dim;
        let mut found: Vec<Vec<u32>> = Vec::new();
        let mut stack: Vec<Vec<u32>> = Vec::new();
        assert(pending(dim, path_views(stack@)) =~= Seq::<Seq<u32>>::empty());
        self.push_extensions(&mut stack, start);
        assert(path_views(found@) =~= Seq::<Seq<u32>>::empty());
        assert(path_views(found@) + pending(dim, path_views(stack@)) =~= all_seqs(dim, start@));
        while stack.len() > 0
            invariant
                dim == self@.dim,
                path_views(found@) + pending(dim, path_views(stack@)) == all_seqs(dim, start@),
                end_on_grid(dim, stack@),
            decreases pending(dim, path_views(stack@)).len(),
        {
            let ghost listed = path_views(found@);
            let ghost waiting = path_views(stack@);
            let path = stack.pop().unwrap();
            proof {
                assert(path_views(stack@) =~= waiting.drop_last());
                assert(path@ == waiting.last());
            }
            let ghost below = pending(dim, path_views(stack@));
            self.push_extensions(&mut stack, &path);
            found.push(path);
            proof {
                assert(path_views(found@) =~= listed.push(path@));
                assert(listed.push(path@) + (all_seqs(dim, path@) + below) =~= listed + (
                seq![path@] + all_seqs(dim, path@) + below));
            }
        }
        assert(pending(dim, path_views(stack@)) =~= Seq::<Seq<u32>>::empty());
        assert(path_views(found@) + Seq::<Seq<u32>>::empty() =~= path_views(found@));
        found
    }

    /// Every path that properly extends `idx_seq`, each exactly once: a path
    /// comes right before the paths that extend it, and of two extensions of
    /// one path the one that steps on the smaller cell comes first. From the
    /// empty path this lists every path on the grid.
    ///
    /// Refused with `UnpopulatedGrid` on a board that is not populated, and
    /// with `InvalidPath` where `idx_seq` is no path on this grid.
    pub fn get_all_seqs(&self, idx_seq: &Vec<u32>) -> (found: Result<Vec<Vec<u32>>, BoardError>)
        ensures
            match found {
                Ok(paths) => self@.seqs_outcome(idx_seq@) == Ok::<Seq<Seq<u32>>, BoardError>(
                    path_views(paths@),
                ),
                Err(e) => self@.seqs_outcome(idx_seq@) == Err::<Seq<Seq<u32>>, BoardError>(e),
            },
    {
        if !self.is_populated() {
            return Err(BoardError::UnpopulatedGrid);
        }
        if !self.is_valid_path(idx_seq) {
            return Err(BoardError::InvalidPath);
        }
        Ok(self.walk(idx_seq))
    }
}

} // verus!
