//! What holds of the library's answers, whatever the board and the path.

use crate::board::{on_grid, word_of, BoardView};
use crate::dictionary::{lines_of, scan_lines, without_return};
use crate::error::BoardError;
use crate::grid::{
    adjacent, cell_count, cells, is_move, is_path, lemma_moves_of_empty_path, lemma_valid_moves,
    valid_moves,
};
use crate::walks::{
    all_seqs, extends, free_cells, lemma_all_seqs_by_moves, lemma_move_takes_a_cell,
    lemma_walks_through_are_paths, lemma_walks_through_concat, lemma_walks_through_move,
    walks_through,
};
use vstd::prelude::*;

verus! {

/// From the empty path, the open moves are all the cells of the grid, in
/// ascending order.
pub proof fn law_empty_path_opens_every_cell(board: BoardView)
    requires
        board.valid(),
        board.populated(),
    ensures
        board.moves_outcome(Seq::empty()) == Ok::<Seq<u32>, BoardError>(cells(board.dim)),
        cells(board.dim).len() == cell_count(board.dim),
        forall|i: int| 0 <= i < cell_count(board.dim) ==> cells(board.dim)[i] == i,
{
    lemma_moves_of_empty_path(board.dim);
}

/// Every move open at the end of a non-empty path is a cell of the grid next
/// to the path's last cell, and the path has not visited it. The moves come
/// in strictly ascending order.
pub proof fn law_moves_are_fresh_neighbours(board: BoardView, path: Seq<u32>)
    requires
        board.valid(),
        board.populated(),
        is_path(board.dim, path),
        path.len() > 0,
    ensures
        board.moves_outcome(path) is Ok,
        forall|i: int|
            #![trigger board.moves_outcome(path)->Ok_0[i]]
            0 <= i < board.moves_outcome(path)->Ok_0.len() ==> {
                let cell = board.moves_outcome(path)->Ok_0[i];
                &&& cell < cell_count(board.dim)
                &&& adjacent(board.dim, path.last() as int, cell as int)
                &&& !path.contains(cell)
            },
        forall|i: int, j: int|
            0 <= i < j < board.moves_outcome(path)->Ok_0.len() ==> board.moves_outcome(
                path,
            )->Ok_0[i] < board.moves_outcome(path)->Ok_0[j],
{
    lemma_valid_moves(board.dim, path);
    let moves = valid_moves(board.dim, path);
    assert forall|i: int| 0 <= i < moves.len() implies is_move(board.dim, path, #[trigger] moves[i]) by {
        assert(moves.contains(moves[i]));
    }
}

/// Asking twice for the moves at the end of one path gives one answer: the
/// answer depends on the board and the path alone.
pub proof fn law_moves_are_repeatable(
    board: BoardView,
    path: Seq<u32>,
    first: Result<Seq<u32>, BoardError>,
    second: Result<Seq<u32>, BoardError>,
)
    requires
        first == board.moves_outcome(path),
        second == board.moves_outcome(path),
    ensures
        first == second,
{
}

/// The word along a sequence of cells has one letter for each cell: the
/// letter that the board holds there.
pub proof fn law_word_follows_path(board: BoardView, path: Seq<u32>)
    requires
        board.populated(),
        on_grid(board.dim, path),
    ensures
        board.word_outcome(path) is Ok,
        board.word_outcome(path)->Ok_0.len() == path.len(),
        forall|i: int|
            0 <= i < path.len() ==> board.word_outcome(path)->Ok_0[i] == board.tiles[path[i] as int],
{
    assert(word_of(board.tiles, path).len() == path.len());
}

/// Each walk through some steps goes on from the path by one of the steps.
proof fn lemma_walks_take_a_step(dim: nat, path: Seq<u32>, steps: Seq<u32>)
    ensures
        forall|i: int|
            0 <= i < walks_through(dim, path, steps).len() ==> extends(
                path,
                #[trigger] walks_through(dim, path, steps)[i],
            ) && steps.contains(walks_through(dim, path, steps)[i][path.len() as int]),
    decreases free_cells(dim, path), steps.len(),
{
    if steps.len() > 0 {
        let front = steps.drop_last();
        let earlier = walks_through(dim, path, front);
        lemma_walks_take_a_step(dim, path, front);
        let all = walks_through(dim, path, steps);
        assert forall|i: int| 0 <= i < earlier.len() implies steps.contains(
            #[trigger] earlier[i][path.len() as int],
        ) by {
            let cell = earlier[i][path.len() as int];
            assert(front.contains(cell));
            let k = choose|k: int| 0 <= k < front.len() && front[k] == cell;
            assert(steps[k] == cell);
        }
        if is_move(dim, path, steps.last()) {
            let next = path.push(steps.last());
            let beyond = walks_through(dim, next, cells(dim));
            lemma_move_takes_a_cell(dim, path, steps.last());
            lemma_walks_take_a_step(dim, next, cells(dim));
            assert(next.take(path.len() as int) =~= path);
            assert(steps[steps.len() - 1] == steps.last());
            assert forall|i: int| 0 <= i < all.len() implies extends(path, #[trigger] all[i])
                && steps.contains(all[i][path.len() as int]) by {
                if i < earlier.len() {
                    assert(all[i] == earlier[i]);
                } else if i == earlier.len() {
                    assert(all[i] == next);
                } else {
                    let far = beyond[i - earlier.len() - 1];
                    assert(all[i] == far);
                    assert(extends(next, far));
                    assert(far.take(path.len() as int) =~= far.take(next.len() as int).take(
                        path.len() as int,
                    ));
                    assert(far.take(next.len() as int)[path.len() as int] == far[path.len() as int]);
                }
            }
        }
    }
}

/// Walks through steps that are all different are all different.
proof fn lemma_walks_differ(dim: nat, path: Seq<u32>, steps: Seq<u32>)
    requires
        cell_count(dim) <= u32::MAX,
        steps.no_duplicates(),
    ensures
        walks_through(dim, path, steps).no_duplicates(),
    decreases free_cells(dim, path), steps.len(),
{
    if steps.len() > 0 {
        let front = steps.drop_last();
        let earlier = walks_through(dim, path, front);
        lemma_walks_differ(dim, path, front);
        if is_move(dim, path, steps.last()) {
            let next = path.push(steps.last());
            let beyond = walks_through(dim, next, cells(dim));
            lemma_move_takes_a_cell(dim, path, steps.last());
            lemma_walks_differ(dim, next, cells(dim));
            lemma_walks_take_a_step(dim, path, front);
            lemma_walks_take_a_step(dim, next, cells(dim));
            let all = walks_through(dim, path, steps);
            assert forall|i: int, j: int| 0 <= i < j < all.len() implies all[i] != all[j] by {
                if j < earlier.len() {
                    assert(all[i] == earlier[i] && all[j] == earlier[j]);
                } else if i < earlier.len() {
                    // The earlier walk leaves by another step.
                    let cell = earlier[i][path.len() as int];
                    assert(all[i] == earlier[i]);
                    assert(front.contains(cell));
                    let k = choose|k: int| 0 <= k < front.len() && front[k] == cell;
                    assert(steps[k] != steps[steps.len() - 1]);
                    if j == earlier.len() {
                        assert(all[j] == next);
                        assert(next[path.len() as int] == steps.last());
                    } else {
                        let far = beyond[j - earlier.len() - 1];
                        assert(all[j] == far);
                        assert(far.take(next.len() as int)[path.len() as int] == far[path.len() as int]);
                    }
                } else if i == earlier.len() {
                    assert(all[i] == next);
                    assert(all[j] == beyond[j - earlier.len() - 1]);
                } else {
                    assert(all[i] == beyond[i - earlier.len() - 1]);
                    assert(all[j] == beyond[j - earlier.len() - 1]);
                }
            }
        }
    }
}

/// Where `cell` is among the steps and is a move, the walks through the
/// steps hold the path extended by `cell`, and all that goes on from there.
proof fn lemma_walks_hold_step(dim: nat, path: Seq<u32>, steps: Seq<u32>, cell: u32)
    requires
        steps.contains(cell),
        is_move(dim, path, cell),
    ensures
        walks_through(dim, path, steps).contains(path.push(cell)),
        forall|i: int|
            0 <= i < all_seqs(dim, path.push(cell)).len() ==> walks_through(
                dim,
                path,
                steps,
            ).contains(#[trigger] all_seqs(dim, path.push(cell))[i]),
    decreases steps.len(),
{
    let all = walks_through(dim, path, steps);
    let next = path.push(cell);
    let front = steps.drop_last();
    let earlier = walks_through(dim, path, front);
    if steps.last() == cell {
        let beyond = all_seqs(dim, next);
        assert(all == earlier + seq![next] + beyond);
        assert(all[earlier.len() as int] == next);
        assert forall|i: int| 0 <= i < beyond.len() implies all.contains(#[trigger] beyond[i]) by {
            assert(all[earlier.len() + 1 + i] == beyond[i]);
        }
    } else {
        let k = choose|k: int| 0 <= k < steps.len() && steps[k] == cell;
        assert(front[k] == cell);
        lemma_walks_hold_step(dim, path, front, cell);
        assert forall|w: Seq<u32>| earlier.contains(w) implies all.contains(w) by {
            let i = choose|i: int| 0 <= i < earlier.len() && earlier[i] == w;
            assert(all[i] == w);
        }
    }
}

/// Every listed path is a path on the grid that goes on from the start.
pub proof fn law_listed_are_paths(dim: nat, start: Seq<u32>)
    requires
        is_path(dim, start),
    ensures
        forall|i: int|
            0 <= i < all_seqs(dim, start).len() ==> is_path(dim, #[trigger] all_seqs(dim, start)[i])
                && extends(start, all_seqs(dim, start)[i]),
{
    lemma_walks_through_are_paths(dim, start, cells(dim));
}

/// Every path on the grid that goes on from the start is listed.
pub proof fn law_paths_are_listed(dim: nat, start: Seq<u32>, path: Seq<u32>)
    requires
        cell_count(dim) <= u32::MAX,
        is_path(dim, path),
        extends(start, path),
    ensures
        all_seqs(dim, start).contains(path),
    decreases path.len() - start.len(),
{
    let cell = path[start.len() as int];
    let next = start.push(cell);
    assert(start =~= path.take(start.len() as int));
    assert(is_move(dim, start, cell)) by {
        if start.contains(cell) {
            let i = choose|i: int| 0 <= i < start.len() && start[i] == cell;
            assert(path[i] == cell);
        }
        if start.len() > 0 {
            assert(start.last() == path[start.len() - 1]);
            assert(adjacent(dim, path[start.len() - 1] as int, path[start.len() as int] as int));
        }
    }
    assert(cells(dim)[cell as int] == cell);
    lemma_walks_hold_step(dim, start, cells(dim), cell);
    assert(next =~= path.take(start.len() as int + 1));
    if path.len() > next.len() {
        law_paths_are_listed(dim, next, path);
        let i = choose|i: int| 0 <= i < all_seqs(dim, next).len() && all_seqs(dim, next)[i] == path;
        assert(all_seqs(dim, start).contains(all_seqs(dim, next)[i]));
    } else {
        assert(path =~= next);
    }
}

/// Depth first, smallest step first: the listing from a path begins with the
/// path extended by its smallest open move, goes on with everything that
/// extends that, and only then turns to the other moves, in their order.
pub proof fn law_first_move_first(dim: nat, path: Seq<u32>)
    requires
        valid_moves(dim, path).len() > 0,
    ensures
        all_seqs(dim, path) == seq![path.push(valid_moves(dim, path).first())] + all_seqs(
            dim,
            path.push(valid_moves(dim, path).first()),
        ) + walks_through(dim, path, valid_moves(dim, path).drop_first()),
        valid_moves(dim, path).len() == 1 ==> walks_through(
            dim,
            path,
            valid_moves(dim, path).drop_first(),
        ) == Seq::<Seq<u32>>::empty(),
{
    let moves = valid_moves(dim, path);
    let first = moves.first();
    assert(is_move(dim, path, first)) by {
        broadcast use vstd::seq_lib::group_filter_ensures;

        assert(moves[0] == first);
    }
    lemma_all_seqs_by_moves(dim, path);
    assert(moves =~= seq![first] + moves.drop_first());
    lemma_walks_through_concat(dim, path, seq![first], moves.drop_first());
    lemma_walks_through_move(dim, path, first);
}

/// No path is listed twice.
pub proof fn law_listed_once(dim: nat, start: Seq<u32>)
    requires
        cell_count(dim) <= u32::MAX,
    ensures
        all_seqs(dim, start).no_duplicates(),
{
    lemma_walks_differ(dim, start, cells(dim));
}

/// Neither the completed lines nor the line begun hold a line feed.
proof fn lemma_scan_holds_no_line_feed(text: Seq<char>)
    ensures
        forall|i: int|
            0 <= i < scan_lines(text).0.len() ==> !(#[trigger] scan_lines(text).0[i]).contains('\n'),
        !scan_lines(text).1.contains('\n'),
    decreases text.len(),
{
    if text.len() > 0 {
        let front = text.drop_last();
        lemma_scan_holds_no_line_feed(front);
        let (complete, begun) = scan_lines(front);
        let (now_complete, now_begun) = scan_lines(text);
        if text.last() == '\n' {
            let line = without_return(begun);
            if line.contains('\n') {
                let j = choose|j: int| 0 <= j < line.len() && line[j] == '\n';
                assert(begun[j] == '\n');
            }
            assert forall|i: int| 0 <= i < now_complete.len() implies !(
            #[trigger] now_complete[i]).contains('\n') by {
                if i < complete.len() {
                    assert(now_complete[i] == complete[i]);
                } else {
                    assert(now_complete[i] == line);
                }
            }
        } else {
            if now_begun.contains('\n') {
                let j = choose|j: int| 0 <= j < now_begun.len() && now_begun[j] == '\n';
                if j < begun.len() {
                    assert(begun[j] == '\n');
                }
            }
        }
    }
}

/// No line of a text holds a line feed.
pub proof fn law_lines_hold_no_line_feed(text: Seq<char>)
    ensures
        forall|i: int|
            0 <= i < lines_of(text).len() ==> !(#[trigger] lines_of(text)[i]).contains('\n'),
{
    lemma_scan_holds_no_line_feed(text);
    let (complete, begun) = scan_lines(text);
    assert forall|i: int| 0 <= i < lines_of(text).len() implies !(#[trigger] lines_of(
        text,
    )[i]).contains('\n') by {
        if i < complete.len() {
            assert(lines_of(text)[i] == complete[i]);
        }
    }
}

/// A text without a line feed is all begun line.
proof fn lemma_scan_without_line_feed(text: Seq<char>)
    requires
        !text.contains('\n'),
    ensures
        scan_lines(text) == (Seq::<Seq<char>>::empty(), text),
    decreases text.len(),
{
    if text.len() == 0 {
        assert(text =~= Seq::empty());
    } else {
        let front = text.drop_last();
        assert forall|j: int| 0 <= j < front.len() implies front[j] != '\n' by {
            assert(text[j] == front[j]);
            assert(text.contains(text[j]));
        }
        assert(text.contains(text.last()));
        lemma_scan_without_line_feed(front);
        assert(front.push(text.last()) =~= text);
    }
}

/// A text that holds characters but no line feed is one line: itself.
pub proof fn law_text_without_line_feed_is_one_line(text: Seq<char>)
    requires
        text.len() > 0,
        !text.contains('\n'),
    ensures
        lines_of(text) == seq![text],
{
    lemma_scan_without_line_feed(text);
    assert(Seq::<Seq<char>>::empty().push(text) =~= seq![text]);
}

/// A line feed at the end of a text adds no line: the text has the lines
/// that it has without it, but for the carriage return that may end the last.
pub proof fn law_final_line_feed_is_optional(text: Seq<char>)
    requires
        text.len() > 0,
        text.last() != '\n',
        text.last() != '\r',
    ensures
        lines_of(text.push('\n')) == lines_of(text),
{
    let ended = text.push('\n');
    assert(ended.drop_last() =~= text);
    let (complete, begun) = scan_lines(text);
    assert(text.drop_last().push(text.last()) =~= text);
    assert(begun.len() > 0 && begun.last() == text.last());
}

} // verus!
