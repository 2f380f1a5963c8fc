//! The board as text, for a terminal.

use crate::board::Board;
use crate::chars::push_char;
use crate::grid::cell_count;
use vstd::prelude::*;

verus! {

/// What stands for the tile of cell `at`: the letter and three blanks, and
/// after the last cell of every row but the bottom one, an empty line.
pub open spec fn tile_text(dim: nat, at: int, letter: char) -> Seq<char> {
    if (at + 1) % (dim as int) == 0 && at + 1 < cell_count(dim) {
        seq![letter, ' ', ' ', ' ', '\n', '\n']
    } else {
        seq![letter, ' ', ' ', ' ']
    }
}

/// The text of the first `n` tiles.
pub open spec fn rendered_tiles(dim: nat, tiles: Seq<char>, n: nat) -> Seq<char>
    decreases n,
{
    if n == 0 {
        Seq::empty()
    } else {
        rendered_tiles(dim, tiles, (n - 1) as nat) + tile_text(dim, n - 1, tiles[n - 1])
    }
}

/// The text of a board: its tiles row by row, one row on each line, the rows
/// parted by an empty line.
pub open spec fn rendered(dim: nat, tiles: Seq<char>) -> Seq<char> {
    rendered_tiles(dim, tiles, tiles.len())
}

impl Board {
    /// The board as text: its rows one below the other. An unpopulated board
    /// renders as the empty string.
    pub fn render(&self) -> (text: String)
        ensures
            text@ == rendered(self@.dim, self@.tiles),
    {
        let dim = self.dim() as usize;
        let size = self.size() as usize;
        let tiles = self.tiles();
        let mut text = String::new();
        let mut i: usize = 0;
        while i < tiles.len()
            invariant
                i <= tiles.len(),
                dim == self@.dim,
                dim >= 1,
                size == cell_count(self@.dim),
                tiles@ == self@.tiles,
                text@ == rendered_tiles(self@.dim, tiles@, i as nat),
            decreases tiles.len() - i,
        {
            let ghost before = text@;
            push_char(&mut text, tiles[i]);
            push_char(&mut text, ' ');
            push_char(&mut text, ' ');
            push_char(&mut text, ' ');
            if (i + 1) % dim == 0 && i + 1 < size {
                push_char(&mut text, '\n');
                push_char(&mut text, '\n');
            }
            assert(text@ =~= before + tile_text(self@.dim, i as int, tiles@[i as int]));
            i += 1;
        }
        text
    }
}

} // verus!
