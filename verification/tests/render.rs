use boggle_paths::Board;

fn board(dim: u32, letters: &str) -> Board {
    let mut b = Board::new(dim, Vec::new()).unwrap();
    b.fill_with(letters.chars().collect()).unwrap();
    b
}

#[test]
fn render_parts_rows_by_an_empty_line() {
    let b = board(3, "ABCDEFGHI");
    assert_eq!(b.render(), "A   B   C   \n\nD   E   F   \n\nG   H   I   ");
}

#[test]
fn render_of_two_by_two() {
    let b = board(2, "WXYZ");
    assert_eq!(b.render(), "W   X   \n\nY   Z   ");
}

#[test]
fn render_of_single_cell() {
    let b = board(1, "Q");
    assert_eq!(b.render(), "Q   ");
}

#[test]
fn render_of_unpopulated_board_is_empty() {
    let b = Board::new(3, Vec::new()).unwrap();
    assert_eq!(b.render(), "");
}
