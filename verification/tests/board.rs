use boggle_paths::{Board, BoardError};

#[test]
fn zero_side_is_refused() {
    assert!(matches!(Board::new(0, Vec::new()), Err(BoardError::InvalidDimension)));
}

#[test]
fn new_board_is_empty() {
    let b = Board::new(3, vec!["CAT".to_string()]).unwrap();
    assert_eq!(b.dim(), 3);
    assert_eq!(b.size(), 9);
    assert!(b.tiles().is_empty());
    assert!(!b.is_populated());
    assert_eq!(b.dictionary(), &vec!["CAT".to_string()]);
}

#[test]
fn largest_side_is_accepted() {
    let b = Board::new(65535, Vec::new()).unwrap();
    assert_eq!(b.size(), 65535 * 65535);
}

#[test]
fn fill_with_takes_exactly_the_grid() {
    let mut b = Board::new(2, Vec::new()).unwrap();
    assert_eq!(b.fill_with(vec!['A', 'B', 'C']), Err(BoardError::UnpopulatedGrid));
    assert!(b.tiles().is_empty());
    assert_eq!(b.fill_with(vec!['A', 'B', 'C', 'D', 'E']), Err(BoardError::UnpopulatedGrid));
    assert!(!b.is_populated());
    assert_eq!(b.fill_with(vec!['A', 'B', 'C', 'D']), Ok(()));
    assert!(b.is_populated());
    assert_eq!(b.tiles(), &vec!['A', 'B', 'C', 'D']);
    assert_eq!(b.fill_with(vec![]), Err(BoardError::UnpopulatedGrid));
    assert_eq!(b.tiles(), &vec!['A', 'B', 'C', 'D']);
    assert_eq!(b.fill_with(vec!['W', 'X', 'Y', 'Z']), Ok(()));
    assert_eq!(b.tiles(), &vec!['W', 'X', 'Y', 'Z']);
    assert_eq!(b.dim(), 2);
}
