use boggle_paths::words::valid_words;
use boggle_paths::{Board, BoardError};

fn strings(words: &[&str]) -> Vec<String> {
    words.iter().map(|w| w.to_string()).collect()
}

fn board(dim: u32, letters: &str, dictionary: &[&str]) -> Board {
    let mut b = Board::new(dim, strings(dictionary)).unwrap();
    b.fill_with(letters.chars().collect()).unwrap();
    b
}

#[test]
fn word_reads_the_letters_along_the_path() {
    let b = board(3, "CATXYZDOG", &[]);
    assert_eq!(b.get_word_from_seq(&vec![0, 1, 2]), Ok("CAT".to_string()));
    assert_eq!(b.get_word_from_seq(&vec![6, 7, 8]), Ok("DOG".to_string()));
    assert_eq!(b.get_word_from_seq(&vec![]), Ok(String::new()));
    assert_eq!(b.get_word_from_seq(&vec![8]), Ok("G".to_string()));
}

#[test]
fn word_has_one_letter_for_each_cell() {
    let b = board(3, "ABCDEFGHI", &[]);
    let tiles = b.tiles().clone();
    for path in b.get_all_seqs(&vec![4]).unwrap().iter().take(500) {
        let word: Vec<char> = b.get_word_from_seq(path).unwrap().chars().collect();
        assert_eq!(word.len(), path.len());
        for (i, cell) in path.iter().enumerate() {
            assert_eq!(word[i], tiles[*cell as usize]);
        }
    }
}

#[test]
fn word_does_not_ask_for_a_path() {
    let b = board(2, "ABCD", &[]);
    assert_eq!(b.get_word_from_seq(&vec![0, 0, 3, 0]), Ok("AADA".to_string()));
}

#[test]
fn word_refuses_a_cell_off_the_grid() {
    let b = board(2, "ABCD", &[]);
    assert_eq!(b.get_word_from_seq(&vec![0, 4]), Err(BoardError::IndexOutOfRange));
    assert_eq!(b.get_word_from_seq(&vec![u32::MAX]), Err(BoardError::IndexOutOfRange));
}

#[test]
fn word_needs_a_populated_board() {
    let b = Board::new(2, Vec::new()).unwrap();
    assert_eq!(b.get_word_from_seq(&vec![0]), Err(BoardError::UnpopulatedGrid));
    assert_eq!(b.get_word_from_seq(&vec![7]), Err(BoardError::UnpopulatedGrid));
}

#[test]
fn words_for_runs_parallel_to_the_paths() {
    let b = board(2, "ABCD", &[]);
    let paths = vec![vec![0], vec![0, 1], vec![3, 2, 1, 0], vec![]];
    assert_eq!(b.words_for(&paths), Ok(strings(&["A", "AB", "DCBA", ""])));
    assert_eq!(b.words_for(&vec![]), Ok(vec![]));
    assert_eq!(b.words_for(&vec![vec![0], vec![4]]), Err(BoardError::IndexOutOfRange));
    let empty = Board::new(2, Vec::new()).unwrap();
    assert_eq!(empty.words_for(&paths), Err(BoardError::UnpopulatedGrid));
}

#[test]
fn all_words_follow_the_listing() {
    let b = board(2, "ABCD", &[]);
    let words = b.get_all_words().unwrap();
    assert_eq!(words.len(), 64);
    assert_eq!(words[..5].to_vec(), strings(&["A", "AB", "ABC", "ABCD", "ABD"]));
    let paths = b.get_all_seqs(&vec![]).unwrap();
    assert_eq!(Ok(words), b.words_for(&paths));
    let empty = Board::new(2, Vec::new()).unwrap();
    assert_eq!(empty.get_all_words(), Err(BoardError::UnpopulatedGrid));
}

#[test]
fn dictionary_filter_keeps_dictionary_order() {
    let candidates = strings(&["CAT", "AT", "CA"]);
    let dictionary = strings(&["AT", "DOG", "CAT"]);
    assert_eq!(valid_words(&candidates, &dictionary), strings(&["AT", "CAT"]));
}

#[test]
fn dictionary_filter_edge_cases() {
    assert_eq!(valid_words(&strings(&[]), &strings(&["A"])), strings(&[]));
    assert_eq!(valid_words(&strings(&["A"]), &strings(&[])), strings(&[]));
    assert_eq!(
        valid_words(&strings(&["B", "A", "B"]), &strings(&["A", "A", "C", "B"])),
        strings(&["A", "A", "B"])
    );
}

#[test]
fn valid_words_on_a_board() {
    let b = board(3, "CATXYZDOG", &["AT", "DOG", "CAT", "TAX", "COG", "ZYX", "CATS", "TAT"]);
    assert_eq!(b.get_all_valid_words(), Ok(strings(&["AT", "DOG", "CAT", "TAX", "ZYX"])));
    let empty = Board::new(3, strings(&["AT"])).unwrap();
    assert_eq!(empty.get_all_valid_words(), Err(BoardError::UnpopulatedGrid));
}
