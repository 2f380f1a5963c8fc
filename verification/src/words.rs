//! From paths to words: the word of every path on the board, and the
//! dictionary words among them.

use crate::board::{path_views, word_of, word_views, Board, BoardView};
use crate::error::BoardError;
use crate::grid::{cells, is_path};
use crate::walks::{all_seqs, lemma_walks_through_are_paths};
use vstd::prelude::*;

verus! {

/// The word of every path on the grid, in the order in which the paths are
/// listed.
pub open spec fn all_words(dim: nat, tiles: Seq<char>) -> Seq<Seq<char>> {
    all_seqs(dim, Seq::empty()).map_values(|path: Seq<u32>| word_of(tiles, path))
}

/// The entries of `dictionary` that occur among `candidates`, in dictionary
/// order. An entry that the dictionary repeats is kept as often.
pub open spec fn known_words(dictionary: Seq<Seq<char>>, candidates: Seq<Seq<char>>) -> Seq<
    Seq<char>,
> {
    dictionary.filter(|word: Seq<char>| candidates.contains(word))
}

impl BoardView {
    /// What a query for the words of all paths answers.
    pub open spec fn all_words_outcome(self) -> Result<Seq<Seq<char>>, BoardError> {
        if !self.populated() {
            Err(BoardError::UnpopulatedGrid)
        } else {
            Ok(all_words(self.dim, self.tiles))
        }
    }

    /// What a query for the dictionary words on the board answers.
    pub open spec fn valid_words_outcome(self) -> Result<Seq<Seq<char>>, BoardError> {
        if !self.populated() {
            Err(BoardError::UnpopulatedGrid)
        } else {
            Ok(known_words(self.dictionary, all_words(self.dim, self.tiles)))
        }
    }
}

/// Whether `word` occurs among `words`.
fn has_word(words: &Vec<String>, word: &String) -> (found: bool)
    ensures
        found == word_views(words@).contains(word@),
{
    let ghost views = word_views(words@);
    let mut i: usize = 0;
    while i < words.len()
        invariant
            i <= words.len(),
            views == word_views(words@),
            forall|k: int| 0 <= k < i ==> views[k] != word@,
        decreases words.len() - i,
    {
        if words[i] == *word {
            assert(views[i as int] == word@);
            return true;
        }
        assert(views[i as int] == words@[i as int]@);
        i += 1;
    }
    false
}

/// The entries of `dictionary` that occur among `candidates`, in dictionary
/// order.
pub fn valid_words(candidates: &Vec<String>, dictionary: &Vec<String>) -> (kept: Vec<String>)
    ensures
        word_views(kept@) == known_words(word_views(dictionary@), word_views(candidates@)),
{
    let ghost entries = word_views(dictionary@);
    let ghost among = |word: Seq<char>| word_views(candidates@).contains(word);
    let mut kept: Vec<String> = Vec::new();
    let mut i: usize = 0;
    proof {
        reveal(Seq::filter);
        assert(entries.take(0) =~= Seq::<Seq<char>>::empty());
        assert(word_views(kept@) =~= Seq::<Seq<char>>::empty());
    }
    while i < dictionary.len()
        invariant
            i <= dictionary.len(),
            entries == word_views(dictionary@),
            among == |word: Seq<char>| word_views(candidates@).contains(word),
            word_views(kept@) == entries.take(i as int).filter(among),
        decreases dictionary.len() - i,
    {
        let ghost before = word_views(kept@);
        proof {
            reveal(Seq::filter);
            assert(entries.take(i + 1).drop_last() =~= entries.take(i as int));
            assert(entries.take(i + 1).last() == dictionary@[i as int]@);
        }
        if has_word(candidates, &dictionary[i]) {
            kept.push(dictionary[i].clone());
            assert(word_views(kept@) =~= before.push(dictionary@[i as int]@));
        }
        i += 1;
    }
    assert(entries.take(i as int) =~= entries);
    kept
}

impl Board {
    /// The word of every path on the board, in the order of
    /// [`Board::get_all_seqs`] from the empty path.
    ///
    /// Refused with `UnpopulatedGrid` on a board that is not populated.
    pub fn get_all_words(&self) -> (spelt: Result<Vec<String>, BoardError>)
        ensures
            match spelt {
                Ok(words) => self@.all_words_outcome() == Ok::<Seq<Seq<char>>, BoardError>(
                    word_views(words@),
                ),
                Err(e) => self@.all_words_outcome() == Err::<Seq<Seq<char>>, BoardError>(e),
            },
    {
        let start: Vec<u32> = Vec::new();
        assert(start@ =~= Seq::empty());
        assert(is_path(self@.dim, start@));
        let paths = match self.get_all_seqs(&start) {
            Ok(paths) => paths,
            Err(e) => {
                return Err(e);
            },
        };
        proof {
            lemma_walks_through_are_paths(self@.dim, start@, cells(self@.dim));
        }
        match self.words_for(&paths) {
            Ok(words) => Ok(words),
            Err(e) => Err(e),
        }
    }

    /// The dictionary entries that some path on the board spells, in
    /// dictionary order.
    ///
    /// Refused with `UnpopulatedGrid` on a board that is not populated.
    pub fn get_all_valid_words(&self) -> (kept: Result<Vec<String>, BoardError>)
        ensures
            match kept {
                Ok(words) => self@.valid_words_outcome() == Ok::<Seq<Seq<char>>, BoardError>(
                    word_views(words@),
                ),
                Err(e) => self@.valid_words_outcome() == Err::<Seq<Seq<char>>, BoardError>(e),
            },
    {
        match self.get_all_words() {
            Ok(words) => Ok(valid_words(&words, self.dictionary())),
            Err(e) => Err(e),
        }
    }
}

} // verus!
