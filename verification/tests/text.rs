use sudoku::board::{Board, Cell};
use sudoku::format::{digit_to_char, format_solved};
use sudoku::puzzle::{
    first_line_len, hex_digit, load_board, puzzle_ranges, read_givens, Given, LoadError,
};

fn text(board: &Board) -> String {
    sudoku::format::format(board).unwrap().iter().collect()
}

fn given(val: u16, row: usize, col: usize) -> Given {
    Given { val, cell: Cell { row, col } }
}

#[test]
fn digits_as_characters() {
    assert_eq!(digit_to_char(0), '0');
    assert_eq!(digit_to_char(7), '7');
    assert_eq!(digit_to_char(9), '9');
    assert_eq!(digit_to_char(10), ' ');
}

#[test]
fn a_fresh_small_board_as_text() {
    let board = Board::new(4);
    assert_eq!(
        text(&board),
        "╔══╤══╦══╤══╗\n\
         ║12│12║12│12║\n\
         ║34│34║34│34║\n\
         ╟──┼──╫──┼──╢\n\
         ║12│12║12│12║\n\
         ║34│34║34│34║\n\
         ╠══╪══╬══╪══╣\n\
         ║12│12║12│12║\n\
         ║34│34║34│34║\n\
         ╟──┼──╫──┼──╢\n\
         ║12│12║12│12║\n\
         ║34│34║34│34║\n\
         ╚══╧══╩══╧══╝"
    );
}

#[test]
fn candidates_stand_in_their_places() {
    let mut board = Board::new(4);
    board.place_digit(3, Cell { row: 0, col: 1 }).unwrap();
    board.clean_cell(Cell { row: 3, col: 3 }, 2).unwrap();
    assert_eq!(
        text(&board),
        "╔══╤══╦══╤══╗\n\
         ║12│  ║12│12║\n\
         ║ 4│3 ║ 4│ 4║\n\
         ╟──┼──╫──┼──╢\n\
         ║12│12║12│12║\n\
         ║ 4│ 4║34│34║\n\
         ╠══╪══╬══╪══╣\n\
         ║12│12║12│12║\n\
         ║34│ 4║34│34║\n\
         ╟──┼──╫──┼──╢\n\
         ║12│12║12│1 ║\n\
         ║34│ 4║34│34║\n\
         ╚══╧══╩══╧══╝"
    );
}

#[test]
fn a_solved_small_board_as_text() {
    let mut board = Board::new(4);
    for (row, line) in ["1234", "3412", "2143", "4321"].iter().enumerate() {
        for (col, chr) in line.chars().enumerate() {
            board.place_digit(chr.to_digit(10).unwrap() as u16, Cell { row, col }).unwrap();
        }
    }
    assert!(board.is_solved());
    let expected = "╔══╤══╗\n\
                    ║12│34║\n\
                    ║34│12║\n\
                    ╟──┼──╢\n\
                    ║21│43║\n\
                    ║43│21║\n\
                    ╚══╧══╝";
    assert_eq!(text(&board), expected);
    assert_eq!(format_solved(&board).unwrap().iter().collect::<String>(), expected);
}

#[test]
fn a_fresh_six_board_as_text() {
    let board = Board::new(6);
    let lines: Vec<String> = text(&board).lines().map(|l| l.to_string()).collect();
    assert_eq!(lines.len(), 1 + 3 * (2 * 2 + 1) + 2 + 1);
    assert_eq!(lines[0], "╔═══╤═══╤═══╦═══╤═══╤═══╗");
    assert_eq!(lines[1], "║123│123│123║123│123│123║");
    assert_eq!(lines[2], "║456│456│456║456│456│456║");
    assert_eq!(lines[3], "╟───┼───┼───╫───┼───┼───╢");
    assert_eq!(lines[6], "╠═══╪═══╪═══╬═══╪═══╪═══╣");
    assert_eq!(lines[18], "╚═══╧═══╧═══╩═══╧═══╧═══╝");
}

#[test]
fn a_large_board_as_text() {
    let mut board = Board::new(9);
    board.place_digit(5, Cell { row: 4, col: 4 }).unwrap();
    let lines: Vec<String> = text(&board).lines().map(|l| l.to_string()).collect();
    assert_eq!(lines.len(), 1 + 9 * 3 + 8 + 1);
    assert_eq!(lines[0], "╔═══╤═══╤═══╦═══╤═══╤═══╦═══╤═══╤═══╗");
    assert_eq!(lines[1], "║123│123│123║123│123│123║123│123│123║");
    assert_eq!(lines[4], "╟───┼───┼───╫───┼───┼───╫───┼───┼───╢");
    assert_eq!(lines[12], "╠═══╪═══╪═══╬═══╪═══╪═══╬═══╪═══╪═══╣");
    // the middle row of the board
    assert_eq!(lines[17], "║123│123│123║123│   │123║123│123│123║");
    assert_eq!(lines[18], "║4 6│4 6│4 6║4 6│ 5 │4 6║4 6│4 6│4 6║");
    assert_eq!(lines[19], "║789│789│789║789│   │789║789│789│789║");
    assert_eq!(lines[36], "╚═══╧═══╧═══╩═══╧═══╧═══╩═══╧═══╧═══╝");
}

#[test]
fn hexadecimal_digits() {
    assert_eq!(hex_digit(b'0'), Some(0));
    assert_eq!(hex_digit(b'9'), Some(9));
    assert_eq!(hex_digit(b'a'), Some(10));
    assert_eq!(hex_digit(b'f'), Some(15));
    assert_eq!(hex_digit(b'A'), Some(10));
    assert_eq!(hex_digit(b'F'), Some(15));
    assert_eq!(hex_digit(b'g'), None);
    assert_eq!(hex_digit(b'.'), None);
    assert_eq!(hex_digit(b' '), None);
    assert_eq!(hex_digit(b'\n'), None);
    for b in 0..=255u8 {
        assert_eq!(hex_digit(b), (b as char).to_digit(16).map(|d| d as u16));
    }
}

#[test]
fn givens_of_a_text() {
    assert_eq!(read_givens(b""), vec![]);
    assert_eq!(read_givens(b"....\n....\n"), vec![]);
    assert_eq!(
        read_givens(b"1..4\n.3..\n\n...2"),
        vec![given(1, 0, 0), given(4, 0, 3), given(3, 1, 1), given(2, 3, 3)]
    );
    assert_eq!(read_givens(b"x9\nc"), vec![given(9, 0, 1), given(12, 1, 0)]);
    assert_eq!(first_line_len(b"1..4\n.3.."), 4);
    assert_eq!(first_line_len(b""), 0);
    assert_eq!(first_line_len(b"\n123"), 0);
    assert_eq!(first_line_len(b"123456"), 6);
}

#[test]
fn puzzles_of_a_text() {
    assert_eq!(puzzle_ranges(b""), vec![(0, 0)]);
    assert_eq!(puzzle_ranges(b"12\n34"), vec![(0, 5)]);
    assert_eq!(puzzle_ranges(b"12\n34\n\n56\n78"), vec![(0, 5), (7, 12)]);
    assert_eq!(puzzle_ranges(b"a\n\n\nb"), vec![(0, 1), (3, 5)]);
    assert_eq!(puzzle_ranges(b"a\n\n\n\nb"), vec![(0, 1), (3, 3), (5, 6)]);
    assert_eq!(puzzle_ranges(b"a\n\n"), vec![(0, 1), (3, 3)]);
    let text = "12\n34\n\n56\n78\n\n\n9";
    let parts: Vec<&str> = text.split("\n\n").collect();
    let ranges = puzzle_ranges(text.as_bytes());
    assert_eq!(parts.len(), ranges.len());
    for (part, (a, b)) in parts.iter().zip(ranges) {
        assert_eq!(*part, &text[a..b]);
    }
}

#[test]
fn a_board_from_text() {
    let board = load_board(b"1..4\n.3..\n....\n...2").unwrap();
    assert_eq!(board.size(), 4);
    assert_eq!(board.get_cell_coords(0, 0), Some(0b10));
    assert_eq!(board.get_cell_coords(0, 3), Some(0b1_0000));
    assert_eq!(board.get_cell_coords(1, 1), Some(0b1000));
    assert_eq!(board.get_cell_coords(3, 3), Some(0b100));
    let mut same = Board::new(4);
    same.place_digit(1, Cell { row: 0, col: 0 }).unwrap();
    same.place_digit(4, Cell { row: 0, col: 3 }).unwrap();
    same.place_digit(3, Cell { row: 1, col: 1 }).unwrap();
    same.place_digit(2, Cell { row: 3, col: 3 }).unwrap();
    assert_eq!(board.cells, same.cells);
    assert_eq!(board.regions, same.regions);
}

#[test]
fn what_cannot_be_loaded() {
    assert_eq!(load_board(b"").err(), Some(LoadError::Size(0)));
    assert_eq!(load_board(b"12345\n").err(), Some(LoadError::Size(5)));
    assert_eq!(
        load_board(b"....\n....\n....\n....\n1").err(),
        Some(LoadError::OutOfGrid(Cell { row: 4, col: 0 }))
    );
    assert_eq!(
        load_board(b"....\n.....2").err(),
        Some(LoadError::OutOfGrid(Cell { row: 1, col: 5 }))
    );
    assert_eq!(load_board(b"1..1\n").err(), Some(LoadError::Contradiction));
    assert!(load_board(b"......\n").is_ok());
    assert!(load_board(b".........").is_ok());
}
