use boggle_paths::{Board, BoardError};

fn board(dim: u32, letters: &str) -> Board {
    let mut b = Board::new(dim, Vec::new()).unwrap();
    b.fill_with(letters.chars().collect()).unwrap();
    b
}

#[test]
fn empty_path_opens_every_cell() {
    for dim in 1u32..=6 {
        let letters: String = (0..dim * dim).map(|_| 'A').collect();
        let b = board(dim, &letters);
        let expected: Vec<u32> = (0..dim * dim).collect();
        assert_eq!(b.get_valid_moves(&vec![]), Ok(expected));
    }
}

#[test]
fn corner_of_three_by_three_has_three_neighbours() {
    let b = board(3, "ABCDEFGHI");
    assert_eq!(b.get_valid_moves(&vec![0]), Ok(vec![1, 3, 4]));
    assert_eq!(b.get_valid_moves(&vec![2]), Ok(vec![1, 4, 5]));
    assert_eq!(b.get_valid_moves(&vec![6]), Ok(vec![3, 4, 7]));
    assert_eq!(b.get_valid_moves(&vec![8]), Ok(vec![4, 5, 7]));
}

#[test]
fn centre_of_three_by_three_has_eight_neighbours() {
    let b = board(3, "ABCDEFGHI");
    assert_eq!(b.get_valid_moves(&vec![4]), Ok(vec![0, 1, 2, 3, 5, 6, 7, 8]));
}

#[test]
fn edge_of_three_by_three_has_five_neighbours() {
    let b = board(3, "ABCDEFGHI");
    assert_eq!(b.get_valid_moves(&vec![1]), Ok(vec![0, 2, 3, 4, 5]));
    assert_eq!(b.get_valid_moves(&vec![3]), Ok(vec![0, 1, 4, 6, 7]));
}

#[test]
fn visited_cells_are_no_moves() {
    let b = board(3, "ABCDEFGHI");
    assert_eq!(b.get_valid_moves(&vec![0, 1, 4]), Ok(vec![2, 3, 5, 6, 7, 8]));
    assert_eq!(b.get_valid_moves(&vec![4, 0]), Ok(vec![1, 3]));
    assert_eq!(b.get_valid_moves(&vec![1, 3, 0]), Ok(vec![4]));
    assert_eq!(b.get_valid_moves(&vec![1, 4, 3, 0]), Ok(vec![]));
}

#[test]
fn moves_do_not_wrap_round_the_edge() {
    let b = board(4, "ABCDEFGHIJKLMNOP");
    assert_eq!(b.get_valid_moves(&vec![3]), Ok(vec![2, 6, 7]));
    assert_eq!(b.get_valid_moves(&vec![4]), Ok(vec![0, 1, 5, 8, 9]));
    assert_eq!(b.get_valid_moves(&vec![15]), Ok(vec![10, 11, 14]));
}

#[test]
fn single_cell_grid_has_one_start_and_no_step() {
    let b = board(1, "Q");
    assert_eq!(b.get_valid_moves(&vec![]), Ok(vec![0]));
    assert_eq!(b.get_valid_moves(&vec![0]), Ok(vec![]));
}

#[test]
fn moves_are_neighbours_in_range_and_unvisited() {
    let dim = 4u32;
    let b = board(dim, "ABCDEFGHIJKLMNOP");
    for path in b.get_all_seqs(&vec![5]).unwrap().iter().take(2000) {
        let last = *path.last().unwrap();
        let moves = b.get_valid_moves(path).unwrap();
        for w in moves.windows(2) {
            assert!(w[0] < w[1]);
        }
        for cell in 0..dim * dim {
            let dx = (cell % dim) as i64 - (last % dim) as i64;
            let dy = (cell / dim) as i64 - (last / dim) as i64;
            let near = cell != last && dx.abs() <= 1 && dy.abs() <= 1;
            assert_eq!(moves.contains(&cell), near && !path.contains(&cell));
        }
    }
}

#[test]
fn asking_twice_gives_the_same_moves() {
    let b = board(3, "ABCDEFGHI");
    let path = vec![0, 4, 8];
    let first = b.get_valid_moves(&path);
    let second = b.get_valid_moves(&path);
    assert_eq!(first, second);
    assert_eq!(first, Ok(vec![5, 7]));
}

#[test]
fn moves_need_a_populated_board() {
    let b = Board::new(3, Vec::new()).unwrap();
    assert_eq!(b.get_valid_moves(&vec![]), Err(BoardError::UnpopulatedGrid));
    assert_eq!(b.get_valid_moves(&vec![0]), Err(BoardError::UnpopulatedGrid));
}

#[test]
fn moves_need_a_path() {
    let b = board(3, "ABCDEFGHI");
    assert_eq!(b.get_valid_moves(&vec![9]), Err(BoardError::InvalidPath));
    assert_eq!(b.get_valid_moves(&vec![0, 2]), Err(BoardError::InvalidPath));
    assert_eq!(b.get_valid_moves(&vec![0, 1, 0]), Err(BoardError::InvalidPath));
    assert_eq!(b.get_valid_moves(&vec![0, 0]), Err(BoardError::InvalidPath));
    assert_eq!(b.get_valid_moves(&vec![2, 3]), Err(BoardError::InvalidPath));
}

#[test]
fn path_check_tells_paths_apart() {
    let b = board(3, "ABCDEFGHI");
    assert!(b.is_valid_path(&vec![]));
    assert!(b.is_valid_path(&vec![8]));
    assert!(b.is_valid_path(&vec![0, 4, 8, 7, 6, 3]));
    assert!(!b.is_valid_path(&vec![0, 4, 8, 4]));
    assert!(!b.is_valid_path(&vec![0, 8]));
    assert!(!b.is_valid_path(&vec![5, 6]));
    assert!(!b.is_valid_path(&vec![12]));
}
