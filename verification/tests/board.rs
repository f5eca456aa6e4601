use sudoku::board::{Board, Cell, Contradiction};

#[test]
fn placing_on_an_empty_small_board_clears_the_peers() {
    let mut board = Board::new(4);
    assert_eq!(board.place_digit(2, Cell { row: 0, col: 0 }), Ok(()));
    assert_eq!(board.place_digit(0, Cell { row: 0, col: 1 }), Ok(()));
    let seen = board.get_cell(&Cell { row: 0, col: 2 }).unwrap();
    assert_eq!(seen & 0b101, 0);
    assert_eq!(seen, 0b1_1010);
    assert_eq!(board.get_cell_coords(0, 0), Some(0b100));
    assert_eq!(board.get_cell_coords(0, 1), Some(0b1));
    assert_eq!(board.get_cell_coords(1, 1), Some(0b1_1010));
    assert_eq!(board.get_cell_coords(1, 2), Some(0b1_1110));
    assert_eq!(board.get_cell_coords(3, 0), Some(0b1_1010));
    assert_eq!(board.get_cell_coords(4, 0), None);
}

#[test]
fn placing_a_digit_twice_in_a_row_is_a_contradiction() {
    let mut board = Board::new(4);
    assert_eq!(board.place_digit(1, Cell { row: 0, col: 0 }), Ok(()));
    assert_eq!(board.place_digit(1, Cell { row: 0, col: 3 }), Err(Contradiction));
}
