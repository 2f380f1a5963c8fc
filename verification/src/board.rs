//! The board: a square grid of letters together with the dictionary that its
//! words are held against.

use crate::chars::push_char;
use crate::error::BoardError;
use crate::grid::{
    adjacent, ascending, cell_count, cells, column_of, is_move, is_path, lemma_ascending_unique,
    lemma_cell_at, lemma_cell_coordinates, lemma_moves_of_empty_path, lemma_valid_moves, row_of,
    valid_moves,
};
use crate::random::draw_between;
use vstd::prelude::*;

verus! {

/// A `dim × dim` grid of letters and a dictionary.
///
/// A board is built empty by [`Board::new`] and must be populated, by
/// [`Board::fill_with`] or [`Board::fill_random`], before it answers queries.
#[derive(Debug)]
pub struct Board {
    dim: u32,
    size: u32,
    tiles: Vec<char>,
    dictionary: Vec<String>,
}

/// What a board is, mathematically.
pub struct BoardView {
    /// Side length; at least one.
    pub dim: nat,
    /// The letters, row by row; empty until the board is populated.
    pub tiles: Seq<char>,
    /// The dictionary, in its own order.
    pub dictionary: Seq<Seq<char>>,
}

/// The cell sequences of a sequence of paths.
pub open spec fn path_views(paths: Seq<Vec<u32>>) -> Seq<Seq<u32>> {
    paths.map_values(|path: Vec<u32>| path@)
}

/// The character sequences of a sequence of strings.
pub open spec fn word_views(words: Seq<String>) -> Seq<Seq<char>> {
    words.map_values(|word: String| word@)
}

/// Every cell of the sequence is on the grid.
pub open spec fn on_grid(dim: nat, path: Seq<u32>) -> bool {
    forall|i: int| 0 <= i < path.len() ==> path[i] < cell_count(dim)
}

/// The letters under the cells of `path`, in order.
pub open spec fn word_of(tiles: Seq<char>, path: Seq<u32>) -> Seq<char> {
    path.map_values(|cell: u32| tiles[cell as int])
}

impl BoardView {
    /// The side is at least one, and the cells can be numbered in 32 bits.
    /// This holds of every board.
    pub open spec fn valid(self) -> bool {
        &&& self.dim >= 1
        &&& cell_count(self.dim) <= u32::MAX
    }

    /// Every cell holds a letter.
    pub open spec fn populated(self) -> bool {
        self.tiles.len() == cell_count(self.dim)
    }

    /// What a query for the word along `path` answers.
    pub open spec fn word_outcome(self, path: Seq<u32>) -> Result<Seq<char>, BoardError> {
        if !self.populated() {
            Err(BoardError::UnpopulatedGrid)
        } else if !on_grid(self.dim, path) {
            Err(BoardError::IndexOutOfRange)
        } else {
            Ok(word_of(self.tiles, path))
        }
    }

    /// What a query for the words along each of `paths` answers.
    pub open spec fn words_outcome(self, paths: Seq<Seq<u32>>) -> Result<
        Seq<Seq<char>>,
        BoardError,
    > {
        if !self.populated() {
            Err(BoardError::UnpopulatedGrid)
        } else if exists|i: int| 0 <= i < paths.len() && !on_grid(self.dim, #[trigger] paths[i]) {
            Err(BoardError::IndexOutOfRange)
        } else {
            Ok(paths.map_values(|path: Seq<u32>| word_of(self.tiles, path)))
        }
    }

    /// What a query for the open moves at the end of `path` answers.
    pub open spec fn moves_outcome(self, path: Seq<u32>) -> Result<Seq<u32>, BoardError> {
        if !self.populated() {
            Err(BoardError::UnpopulatedGrid)
        } else if !is_path(self.dim, path) {
            Err(BoardError::InvalidPath)
        } else {
            Ok(valid_moves(self.dim, path))
        }
    }
}

impl View for Board {
    type V = BoardView;

    closed spec fn view(&self) -> BoardView {
        BoardView {
            dim: self.dim as nat,
            tiles: self.tiles@,
            dictionary: word_views(self.dictionary@),
        }
    }
}

/// Whether `cell` occurs in `path`.
fn path_contains(path: &Vec<u32>, cell: u32) -> (found: bool)
    ensures
        found == path@.contains(cell),
{
    let mut i: usize = 0;
    while i < path.len()
        invariant
            i <= path.len(),
            forall|k: int| 0 <= k < i ==> path@[k] != cell,
        decreases path.len() - i,
    {
        if path[i] == cell {
            return true;
        }
        i += 1;
    }
    false
}

impl Board {
    #[verifier::type_invariant]
    spec fn well_formed(&self) -> bool {
        &&& self.dim >= 1
        &&& self.size == self.dim * self.dim
    }

    /// An unpopulated board of side `dim` with the given dictionary.
    ///
    /// A side of zero is refused. The number of cells must fit the index
    /// type.
    pub fn new(dim: u32, dictionary: Vec<String>) -> (made: Result<Board, BoardError>)
        requires
            dim * dim <= u32::MAX,
        ensures
            dim == 0 <==> made is Err,
            made matches Err(e) ==> e == BoardError::InvalidDimension,
            made matches Ok(board) ==> board@ == (BoardView {
                dim: dim as nat,
                tiles: Seq::empty(),
                dictionary: word_views(dictionary@),
            }),
    {
        if dim == 0 {
            return Err(BoardError::InvalidDimension);
        }
        let size = dim * dim;
        Ok(Board { dim, size, tiles: Vec::new(), dictionary })
    }

    /// Side length of the grid.
    pub fn dim(&self) -> (dim: u32)
        ensures
            dim == self@.dim,
            self@.valid(),
    {
        proof {
            use_type_invariant(self);
        }
        self.dim
    }

    /// Number of cells of the grid.
    pub fn size(&self) -> (size: u32)
        ensures
            size == cell_count(self@.dim),
            size >= 1,
    {
        proof {
            use_type_invariant(self);
            assert(self.dim * self.dim >= 1) by (nonlinear_arith)
                requires
                    self.dim >= 1,
            ;
        }
        self.size
    }

    /// The letters, row by row.
    pub fn tiles(&self) -> (tiles: &Vec<char>)
        ensures
            tiles@ == self@.tiles,
    {
        &self.tiles
    }

    /// The dictionary.
    pub fn dictionary(&self) -> (words: &Vec<String>)
        ensures
            word_views(words@) == self@.dictionary,
    {
        &self.dictionary
    }

    /// Whether every cell holds a letter.
    pub fn is_populated(&self) -> (full: bool)
        ensures
            full == self@.populated(),
    {
        proof {
            use_type_invariant(self);
        }
        self.tiles.len() == self.size as usize
    }

    /// Puts the given letters on the grid, row by row.
    ///
    /// The letters must cover the grid exactly; otherwise the board is left
    /// as it was.
    pub fn fill_with(&mut self, tiles: Vec<char>) -> (done: Result<(), BoardError>)
        ensures
            tiles@.len() == cell_count(old(self)@.dim) <==> done is Ok,
            done matches Err(e) ==> e == BoardError::UnpopulatedGrid && final(self)@ == old(self)@,
            done is Ok ==> final(self)@ == (BoardView { tiles: tiles@, ..old(self)@ }),
    {
        proof {
            use_type_invariant(&*self);
        }
        if tiles.len() != self.size as usize {
            return Err(BoardError::UnpopulatedGrid);
        }
        self.tiles = tiles;
        Ok(())
    }

    /// Populates the grid with capital letters drawn by chance, one for each
    /// cell, replacing what was there.
    pub fn fill_random(&mut self)
        ensures
            final(self)@.dim == old(self)@.dim,
            final(self)@.dictionary == old(self)@.dictionary,
            final(self)@.populated(),
            forall|i: int|
                0 <= i < final(self)@.tiles.len() ==> is_capital(#[trigger] final(self)@.tiles[i]),
    {
        proof {
            use_type_invariant(&*self);
        }
        let mut rng = rand::thread_rng();
        let mut tiles: Vec<char> = Vec::new();
        let mut n: u32 = 0;
        while n < self.size
            invariant
                n <= self.size,
                tiles@.len() == n,
                forall|i: int| 0 <= i < tiles@.len() ==> is_capital(#[trigger] tiles@[i]),
            decreases self.size - n,
        {
            let code = draw_between(&mut rng, FIRST_CAPITAL, LAST_CAPITAL);
            tiles.push(capital(code));
            n += 1;
        }
        self.tiles = tiles;
    }

    /// Whether two cells of the grid are neighbours.
    fn neighbours(&self, a: u32, b: u32) -> (near: bool)
        requires
            a < cell_count(self@.dim),
            b < cell_count(self@.dim),
        ensures
            near == adjacent(self@.dim, a as int, b as int),
    {
        proof {
            use_type_invariant(self);
        }
        let ax = a % self.dim;
        let ay = a / self.dim;
        let bx = b % self.dim;
        let by = b / self.dim;
        proof {
            lemma_cell_coordinates(self.dim as nat, a as int);
            lemma_cell_coordinates(self.dim as nat, b as int);
        }
        a != b && ax <= bx + 1 && bx <= ax + 1 && ay <= by + 1 && by <= ay + 1
    }

    /// Whether `path` is a path on this grid.
    pub fn is_valid_path(&self, path: &Vec<u32>) -> (ok: bool)
        ensures
            ok == is_path(self@.dim, path@),
    {
        proof {
            use_type_invariant(self);
        }
        let ghost dim = self.dim as nat;
        let mut i: usize = 0;
        while i < path.len()
            invariant
                i <= path.len(),
                dim == self@.dim,
                self.size == cell_count(dim),
                forall|k: int| 0 <= k < i ==> path@[k] < cell_count(dim),
                forall|k: int, l: int| 0 <= k < l < i ==> path@[k] != path@[l],
                forall|k: int|
                    0 < k < i ==> adjacent(dim, path@[k - 1] as int, #[trigger] path@[k] as int),
            decreases path.len() - i,
        {
            let cell = path[i];
            if cell >= self.size {
                return false;
            }
            if i > 0 && !self.neighbours(path[i - 1], cell) {
                return false;
            }
            let mut j: usize = 0;
            while j < i
                invariant
                    j <= i < path.len(),
                    cell == path@[i as int],
                    forall|k: int| 0 <= k < j ==> path@[k] != cell,
                decreases i - j,
            {
                if path[j] == cell {
                    return false;
                }
                j += 1;
            }
            i += 1;
        }
        true
    }

    /// Every cell of the grid, in ascending order: the moves open to the
    /// empty path.
    fn all_cells(&self) -> (all: Vec<u32>)
        ensures
            all@ == cells(self@.dim),
    {
        proof {
            use_type_invariant(self);
        }
        let mut all: Vec<u32> = Vec::new();
        let mut cell: u32 = 0;
        while cell < self.size
            invariant
                cell <= self.size,
                all@.len() == cell,
                forall|k: int| 0 <= k < cell ==> all@[k] == k,
            decreases self.size - cell,
        {
            all.push(cell);
            cell += 1;
        }
        assert(all@ =~= cells(self.dim as nat));
        all
    }

    /// The moves open at the end of a path that ends on the grid.
    ///
    /// Scans the block of up to three rows and three columns around the last
    /// cell, row by row, so that the moves come out in ascending order.
    pub(crate) fn open_moves(&self, path: &Vec<u32>) -> (moves: Vec<u32>)
        requires
            path@.len() > 0 ==> path@.last() < cell_count(self@.dim),
        ensures
            moves@ == valid_moves(self@.dim, path@),
            ascending(moves@),
            forall|cell: u32| moves@.contains(cell) <==> is_move(self@.dim, path@, cell),
            path@.len() == 0 ==> moves@ == cells(self@.dim),
    {
        proof {
            use_type_invariant(self);
        }
        let ghost dim = self.dim as nat;
        proof {
            lemma_valid_moves(dim, path@);
        }
        if path.len() == 0 {
            proof {
                assert(path@ =~= Seq::empty());
                lemma_moves_of_empty_path(dim);
            }
            return self.all_cells();
        }
        let last = path[path.len() - 1];
        let x = last % self.dim;
        let y = last / self.dim;
        proof {
            lemma_cell_coordinates(dim, last as int);
        }
        let x_lo = if x > 0 { x - 1 } else { x };
        let x_hi = if x + 1 < self.dim { x + 1 } else { x };
        let y_lo = if y > 0 { y - 1 } else { y };
        let y_hi = if y + 1 < self.dim { y + 1 } else { y };
        let mut moves: Vec<u32> = Vec::new();
        let mut ny = y_lo;
        while ny <= y_hi
            invariant
                dim == self.dim,
                dim == self@.dim,
                dim >= 1,
                cell_count(dim) <= u32::MAX,
                path@.len() > 0,
                last == path@.last(),
                x == column_of(dim, last as int),
                y == row_of(dim, last as int),
                x_lo <= x <= x_hi < dim,
                y_lo <= y <= y_hi < dim,
                x - x_lo <= 1 && x_hi - x <= 1,
                y - y_lo <= 1 && y_hi - y <= 1,
                last == x + y * dim,
                y_lo <= ny <= y_hi + 1,
                ascending(moves@),
                forall|k: int|
                    0 <= k < moves@.len() ==> is_move(dim, path@, #[trigger] moves@[k])
                        && moves@[k] < ny * dim,
                forall|cx: int, cy: int|
                    x_lo <= cx <= x_hi && y_lo <= cy < ny && is_move(
                        dim,
                        path@,
                        #[trigger] place(dim, cx, cy),
                    ) ==> moves@.contains(place(dim, cx, cy)),
            decreases y_hi + 1 - ny,
        {
            proof {
                lemma_cell_at(dim, 0, ny as int);
            }
            let base = ny * self.dim;
            let mut nx = x_lo;
            while nx <= x_hi
                invariant
                    dim == self.dim,
                    dim == self@.dim,
                    dim >= 1,
                    cell_count(dim) <= u32::MAX,
                    path@.len() > 0,
                    last == path@.last(),
                    x == column_of(dim, last as int),
                    y == row_of(dim, last as int),
                    x_lo <= x <= x_hi < dim,
                    y_lo <= ny <= y_hi < dim,
                    y - ny <= 1 && ny - y <= 1,
                    x - x_lo <= 1 && x_hi - x <= 1,
                    last == x + y * dim,
                    base == ny * dim,
                    x_lo <= nx <= x_hi + 1,
                    ascending(moves@),
                    forall|k: int|
                        0 <= k < moves@.len() ==> is_move(dim, path@, #[trigger] moves@[k])
                            && moves@[k] < base + nx,
                    forall|cx: int, cy: int|
                        x_lo <= cx <= x_hi && (y_lo <= cy < ny || (cy == ny && cx < nx)) && is_move(
                            dim,
                            path@,
                            #[trigger] place(dim, cx, cy),
                        ) ==> moves@.contains(place(dim, cx, cy)),
                decreases x_hi + 1 - nx,
            {
                proof {
                    lemma_cell_at(dim, nx as int, ny as int);
                }
                let cell = base + nx;
                assert(cell == place(dim, nx as int, ny as int));
                let ghost before = moves@;
                if !(nx == x && ny == y) && !path_contains(path, cell) {
                    moves.push(cell);
                    assert(is_move(dim, path@, cell));
                    assert(moves@[moves@.len() - 1] == cell);
                    assert forall|cx: int, cy: int|
                        x_lo <= cx <= x_hi && (y_lo <= cy < ny || (cy == ny && cx < nx + 1))
                            && is_move(
                            dim,
                            path@,
                            #[trigger] place(dim, cx, cy),
                        ) implies moves@.contains(place(dim, cx, cy)) by {
                        if cy == ny && cx == nx {
                        } else {
                            assert(before.contains(place(dim, cx, cy)));
                            let k = choose|k: int|
                                0 <= k < before.len() && before[k] == place(dim, cx, cy);
                            assert(moves@[k] == place(dim, cx, cy));
                        }
                    }
                } else {
                    assert(!is_move(dim, path@, cell)) by {
                        if nx == x && ny == y {
                            assert(cell == last);
                            assert(path@[path@.len() - 1] == cell);
                        }
                    }
                }
                nx += 1;
            }
            proof {
                assert((ny + 1) * dim == ny * dim + dim) by (nonlinear_arith);
            }
            ny += 1;
        }
        proof {
            let open = valid_moves(dim, path@);
            assert forall|cell: u32| moves@.contains(cell) <==> open.contains(cell) by {
                if moves@.contains(cell) {
                    let k = choose|k: int| 0 <= k < moves@.len() && moves@[k] == cell;
                    assert(is_move(dim, path@, moves@[k]));
                }
                if is_move(dim, path@, cell) {
                    lemma_cell_coordinates(dim, cell as int);
                    let cx = column_of(dim, cell as int);
                    let cy = row_of(dim, cell as int);
                    assert(cell == place(dim, cx, cy));
                    assert(moves@.contains(place(dim, cx, cy)));
                }
            }
            lemma_ascending_unique(moves@, open);
        }
        moves
    }

    /// The word that `idx_seq` spells: the letter on each of its cells, in
    /// order. The cells need not form a path.
    ///
    /// Refused with `UnpopulatedGrid` on a board that is not populated, and
    /// with `IndexOutOfRange` where a cell is not on the grid.
    pub fn get_word_from_seq(&self, idx_seq: &Vec<u32>) -> (spelt: Result<String, BoardError>)
        ensures
            match spelt {
                Ok(word) => self@.word_outcome(idx_seq@) == Ok::<Seq<char>, BoardError>(word@),
                Err(e) => self@.word_outcome(idx_seq@) == Err::<Seq<char>, BoardError>(e),
            },
            spelt matches Ok(word) ==> word@.len() == idx_seq@.len() && forall|i: int|
                0 <= i < idx_seq@.len() ==> word@[i] == self@.tiles[idx_seq@[i] as int],
    {
        proof {
            use_type_invariant(self);
        }
        if !self.is_populated() {
            return Err(BoardError::UnpopulatedGrid);
        }
        let mut word = String::new();
        let mut i: usize = 0;
        while i < idx_seq.len()
            invariant
                i <= idx_seq.len(),
                self.tiles@.len() == self.size,
                self.size == cell_count(self@.dim),
                self.tiles@ == self@.tiles,
                on_grid(self@.dim, idx_seq@.take(i as int)),
                word@ == word_of(self@.tiles, idx_seq@.take(i as int)),
            decreases idx_seq.len() - i,
        {
            let cell = idx_seq[i];
            if cell >= self.size {
                assert(!on_grid(self@.dim, idx_seq@));
                return Err(BoardError::IndexOutOfRange);
            }
            push_char(&mut word, self.tiles[cell as usize]);
            proof {
                let before = idx_seq@.take(i as int);
                let now = idx_seq@.take(i + 1);
                assert(now =~= before.push(cell));
                assert(word_of(self@.tiles, now) =~= word_of(self@.tiles, before).push(
                    self@.tiles[cell as int],
                ));
            }
            i += 1;
        }
        assert(idx_seq@.take(i as int) =~= idx_seq@);
        Ok(word)
    }

    /// The words that `paths` spell, one for each, in the same order.
    ///
    /// Refused with `UnpopulatedGrid` on a board that is not populated, and
    /// with `IndexOutOfRange` where a cell of some path is not on the grid.
    pub fn words_for(&self, paths: &Vec<Vec<u32>>) -> (spelt: Result<Vec<String>, BoardError>)
        ensures
            match spelt {
                Ok(words) => self@.words_outcome(path_views(paths@)) == Ok::<
                    Seq<Seq<char>>,
                    BoardError,
                >(word_views(words@)),
                Err(e) => self@.words_outcome(path_views(paths@)) == Err::<
                    Seq<Seq<char>>,
                    BoardError,
                >(e),
            },
    {
        if !self.is_populated() {
            return Err(BoardError::UnpopulatedGrid);
        }
        let ghost views = path_views(paths@);
        let mut words: Vec<String> = Vec::new();
        let mut i: usize = 0;
        while i < paths.len()
            invariant
                i <= paths.len(),
                self@.populated(),
                views == path_views(paths@),
                forall|k: int| 0 <= k < i ==> on_grid(self@.dim, #[trigger] views[k]),
                word_views(words@) == views.take(i as int).map_values(
                    |path: Seq<u32>| word_of(self@.tiles, path),
                ),
            decreases paths.len() - i,
        {
            match self.get_word_from_seq(&paths[i]) {
                Ok(word) => {
                    let ghost before = word_views(words@);
                    words.push(word);
                    proof {
                        assert(views[i as int] == paths@[i as int]@);
                        assert(word_views(words@) =~= before.push(word@));
                        assert(views.take(i + 1) =~= views.take(i as int).push(views[i as int]));
                        assert(views.take(i + 1).map_values(
                            |path: Seq<u32>| word_of(self@.tiles, path),
                        ) =~= before.push(word@));
                    }
                },
                Err(e) => {
                    assert(views[i as int] == paths@[i as int]@);
                    assert(!on_grid(self@.dim, views[i as int]));
                    return Err(e);
                },
            }
            i += 1;
        }
        assert(views.take(i as int) =~= views);
        Ok(words)
    }

    /// The moves open at the end of `path`, in ascending order: every cell
    /// for the empty path, else the neighbours of the last cell that the path
    /// has not visited.
    ///
    /// Refused with `UnpopulatedGrid` on a board that is not populated, and
    /// with `InvalidPath` where `path` is no path on this grid.
    pub fn get_valid_moves(&self, idx_seq: &Vec<u32>) -> (found: Result<Vec<u32>, BoardError>)
        ensures
            match found {
                Ok(moves) => self@.moves_outcome(idx_seq@) == Ok::<Seq<u32>, BoardError>(moves@),
                Err(e) => self@.moves_outcome(idx_seq@) == Err::<Seq<u32>, BoardError>(e),
            },
            found matches Ok(moves) ==> {
                &&& ascending(moves@)
                &&& forall|cell: u32| moves@.contains(cell) <==> is_move(self@.dim, idx_seq@, cell)
                &&& idx_seq@.len() == 0 ==> moves@ == cells(self@.dim)
            },
    {
        if !self.is_populated() {
            return Err(BoardError::UnpopulatedGrid);
        }
        if !self.is_valid_path(idx_seq) {
            return Err(BoardError::InvalidPath);
        }
        Ok(self.open_moves(idx_seq))
    }
}

/// Code of the letter `A`.
pub const FIRST_CAPITAL: u32 = 65;

/// Code of the letter `Z`.
pub const LAST_CAPITAL: u32 = 90;

/// One of the letters `A` to `Z`.
pub open spec fn is_capital(c: char) -> bool {
    FIRST_CAPITAL <= c as u32 <= LAST_CAPITAL
}

/// The capital letter with the given code.
pub fn capital(code: u32) -> (letter: char)
    requires
        FIRST_CAPITAL <= code <= LAST_CAPITAL,
    ensures
        letter as u32 == code,
{
    (code as u8) as char
}

/// The cell in column `x` of row `y`.
spec fn place(dim: nat, x: int, y: int) -> u32 {
    (x + y * dim) as u32
}

} // verus!
