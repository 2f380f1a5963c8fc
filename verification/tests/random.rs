use boggle_paths::board::capital;
use boggle_paths::Board;

#[test]
fn capital_letters_by_code() {
    assert_eq!(capital(65), 'A');
    assert_eq!(capital(77), 'M');
    assert_eq!(capital(90), 'Z');
}

#[test]
fn random_fill_covers_the_grid_with_capitals() {
    for dim in 1u32..=8 {
        let mut b = Board::new(dim, Vec::new()).unwrap();
        b.fill_random();
        assert!(b.is_populated());
        assert_eq!(b.tiles().len() as u32, dim * dim);
        assert!(b.tiles().iter().all(|c| ('A'..='Z').contains(c)));
        assert_eq!(b.dim(), dim);
    }
}

#[test]
fn random_fill_keeps_the_dictionary() {
    let mut b = Board::new(2, vec!["AT".to_string()]).unwrap();
    b.fill_random();
    assert_eq!(b.dictionary(), &vec!["AT".to_string()]);
}

#[test]
fn random_fill_replaces_the_tiles() {
    let mut b = Board::new(2, Vec::new()).unwrap();
    b.fill_with(vec!['a', 'b', 'c', 'd']).unwrap();
    b.fill_random();
    assert_eq!(b.tiles().len(), 4);
    assert!(b.tiles().iter().all(|c| c.is_ascii_uppercase()));
}

#[test]
fn random_fill_draws_more_than_one_letter() {
    let mut b = Board::new(20, Vec::new()).unwrap();
    b.fill_random();
    let first = b.tiles()[0];
    assert!(b.tiles().iter().any(|c| *c != first));
    assert!(b.tiles().iter().any(|c| *c != 'A'));
    assert!(b.tiles().iter().any(|c| *c != 'Z'));
}

#[test]
fn random_board_answers_queries() {
    let mut b = Board::new(3, Vec::new()).unwrap();
    b.fill_random();
    assert_eq!(b.get_all_seqs(&vec![]).unwrap().len(), 10305);
    let word = b.get_word_from_seq(&vec![0, 1]).unwrap();
    let expected: String = vec![b.tiles()[0], b.tiles()[1]].into_iter().collect();
    assert_eq!(word, expected);
}
