use boggle_paths::{Board, BoardError};

fn board(dim: u32, letters: &str) -> Board {
    let mut b = Board::new(dim, Vec::new()).unwrap();
    b.fill_with(letters.chars().collect()).unwrap();
    b
}

#[test]
fn two_by_two_has_sixty_four_paths() {
    let b = board(2, "ABCD");
    let paths = b.get_all_seqs(&vec![]).unwrap();
    assert_eq!(paths.len(), 64);
    for len in 1..=4usize {
        let expected = [4, 12, 24, 24][len - 1];
        assert_eq!(paths.iter().filter(|p| p.len() == len).count(), expected);
    }
}

#[test]
fn two_by_two_starts_depth_first() {
    let b = board(2, "ABCD");
    let paths = b.get_all_seqs(&vec![]).unwrap();
    let first: Vec<Vec<u32>> = paths.iter().take(5).cloned().collect();
    assert_eq!(
        first,
        vec![vec![0], vec![0, 1], vec![0, 1, 2], vec![0, 1, 2, 3], vec![0, 1, 3]]
    );
    let at_one = paths.iter().position(|p| p == &vec![1]).unwrap();
    assert_eq!(at_one, 16);
    assert!(paths[..at_one].iter().all(|p| p[0] == 0));
    assert!(paths[at_one..].iter().all(|p| p[0] != 0));
}

#[test]
fn one_by_one_has_one_path() {
    let b = board(1, "Z");
    assert_eq!(b.get_all_seqs(&vec![]), Ok(vec![vec![0]]));
    assert_eq!(b.get_all_seqs(&vec![0]), Ok(vec![]));
}

#[test]
fn walks_from_a_path_extend_it() {
    let b = board(2, "ABCD");
    assert_eq!(
        b.get_all_seqs(&vec![2, 0]),
        Ok(vec![vec![2, 0, 1], vec![2, 0, 1, 3], vec![2, 0, 3], vec![2, 0, 3, 1]])
    );
    assert_eq!(b.get_all_seqs(&vec![0, 1, 2, 3]), Ok(vec![]));
}

#[test]
fn every_listed_path_is_a_path_and_listed_once() {
    let b = board(3, "ABCDEFGHI");
    let paths = b.get_all_seqs(&vec![0, 1, 2]).unwrap();
    let mut seen = std::collections::HashSet::new();
    for p in paths.iter() {
        assert!(b.is_valid_path(p));
        assert!(p.len() > 3 && p[..3] == [0, 1, 2]);
        assert!(seen.insert(p.clone()));
    }
    // By hand: from 2 on, through the six free cells 3..=8.
    let direct = b.get_valid_moves(&vec![0, 1, 2]).unwrap();
    assert_eq!(direct, vec![4, 5]);
    let mut total = 0;
    for m in direct {
        total += 1 + b.get_all_seqs(&vec![0, 1, 2, m]).unwrap().len();
    }
    assert_eq!(paths.len(), total);
}

#[test]
fn a_path_comes_right_before_its_extensions() {
    let b = board(3, "ABCDEFGHI");
    let paths = b.get_all_seqs(&vec![4, 0]).unwrap();
    let mut expected = Vec::new();
    for m in b.get_valid_moves(&vec![4, 0]).unwrap() {
        let next = vec![4, 0, m];
        expected.push(next.clone());
        expected.extend(b.get_all_seqs(&next).unwrap());
    }
    assert_eq!(paths, expected);
}

#[test]
fn three_by_three_path_count() {
    let b = board(3, "ABCDEFGHI");
    let paths = b.get_all_seqs(&vec![]).unwrap();
    assert_eq!(paths.len(), 10305);
    assert_eq!(paths[0], vec![0]);
    assert_eq!(paths[1], vec![0, 1]);
    assert_eq!(paths[2], vec![0, 1, 2]);
    assert_eq!(paths[3], vec![0, 1, 2, 4]);
}

#[test]
fn walks_need_a_populated_board() {
    let b = Board::new(2, Vec::new()).unwrap();
    assert_eq!(b.get_all_seqs(&vec![]), Err(BoardError::UnpopulatedGrid));
}

#[test]
fn walks_need_a_path_to_start_from() {
    let b = board(3, "ABCDEFGHI");
    assert_eq!(b.get_all_seqs(&vec![0, 8]), Err(BoardError::InvalidPath));
    assert_eq!(b.get_all_seqs(&vec![9]), Err(BoardError::InvalidPath));
    assert_eq!(b.get_all_seqs(&vec![4, 4]), Err(BoardError::InvalidPath));
}
