use sudoku::board::{Board, Cell, Contradiction};

fn load(rows: &[&str]) -> Board {
    let mut board = Board::new(rows.len());
    for (row, line) in rows.iter().enumerate() {
        for (col, chr) in line.chars().enumerate() {
            if let Some(d) = chr.to_digit(10) {
                if d != 0 {
                    board.place_digit(d as u16, Cell { row, col }).unwrap();
                }
            }
        }
    }
    board
}

fn digits(board: &Board) -> Vec<String> {
    let n = board.size();
    (0..n)
        .map(|row| {
            (0..n)
                .map(|col| {
                    let m = board.get_cell_coords(row, col).unwrap();
                    if m.count_ones() == 1 {
                        char::from_digit(m.trailing_zeros(), 10).unwrap()
                    } else {
                        '.'
                    }
                })
                .collect()
        })
        .collect()
}

#[test]
fn an_easy_puzzle_is_solved() {
    let mut board = load(&[
        "53..7....",
        "6..195...",
        ".98....6.",
        "8...6...3",
        "4..8.3..1",
        "7...2...6",
        ".6....28.",
        "...419..5",
        "....8..79",
    ]);
    assert_eq!(board.solve(), Ok(()));
    assert!(board.is_solved());
    assert_eq!(
        digits(&board),
        vec![
            "534678912",
            "672195348",
            "198342567",
            "859761423",
            "426853791",
            "713924856",
            "961537284",
            "287419635",
            "345286179",
        ]
    );
}

#[test]
fn solving_twice_changes_nothing() {
    let mut board = load(&[
        "53..7....",
        "6..195...",
        ".98....6.",
        "8...6...3",
        "4..8.3..1",
        "7...2...6",
        ".6....28.",
        "...419..5",
        "....8..79",
    ]);
    board.solve().unwrap();
    let first = board.cells.clone();
    assert_eq!(board.solve(), Ok(()));
    assert_eq!(board.cells, first);
}

#[test]
fn an_empty_board_is_stable() {
    let mut board = Board::new(9);
    let before = board.cells.clone();
    assert_eq!(board.solve(), Ok(()));
    assert_eq!(board.cells, before);
    assert!(!board.is_solved());
}

#[test]
fn a_placement_that_empties_a_cell_is_a_contradiction() {
    let mut board = Board::new(4);
    board.place_digit(1, Cell { row: 0, col: 0 }).unwrap();
    board.place_digit(2, Cell { row: 0, col: 1 }).unwrap();
    // the two open cells of row 0 share a box with row 1, column 2:
    // a 3 there leaves both with 4 alone
    assert_eq!(board.place_digit(3, Cell { row: 1, col: 2 }), Err(Contradiction));
}

fn holds_solution(board: &Board, solution: &[&str]) -> bool {
    solution.iter().enumerate().all(|(row, line)| {
        line.chars().enumerate().all(|(col, chr)| {
            let d = chr.to_digit(10).unwrap();
            board.get_cell_coords(row, col).unwrap() & (1 << d) != 0
        })
    })
}

fn check(puzzle: &[&str], solution: &[&str]) -> Board {
    let mut board = load(puzzle);
    assert!(holds_solution(&board, solution));
    assert_eq!(board.solve(), Ok(()));
    assert!(holds_solution(&board, solution));
    board
}

#[test]
fn forty_clues() {
    let solution = [
        "678392415", "541687239", "923145786", "219863574", "864571923", "357924861",
        "196258347", "485736192", "732419658",
    ];
    let board = check(
        &[
            ".783..41.", "..16.....", "92.1....6", "219..3..4", ".6..71..3", "35792..61",
            "1.6.58...", "48..361.2", "...4.9.5.",
        ],
        &solution,
    );
    assert!(board.is_solved());
    assert_eq!(digits(&board), solution);
}

#[test]
fn thirty_two_clues() {
    let solution = [
        "475168923", "683249571", "921357846", "768925314", "134876295", "592431768",
        "317594682", "859612437", "246783159",
    ];
    let board = check(
        &[
            "...1.....", "68......1", "...357..6", "..89..3..", ".3...62..", ".924.1...",
            "3.759...2", ".59.12.37", "2...8..5.",
        ],
        &solution,
    );
    assert!(board.is_solved());
    assert_eq!(digits(&board), solution);
}

#[test]
fn twenty_eight_clues() {
    let solution = [
        "267345189", "195826374", "834719625", "549173862", "718462953", "623958741",
        "972634518", "351287496", "486591237",
    ];
    let board = check(
        &[
            "...345..9", "...82...4", "834.1....", ".....3.6.", ".18......", ".2..587..",
            "9.2...5..", "3....74.6", ".8.5.....",
        ],
        &solution,
    );
    assert!(board.is_solved());
    assert_eq!(digits(&board), solution);
}

#[test]
fn twenty_six_clues() {
    let solution = [
        "237168459", "896543127", "154729368", "382697514", "741835692", "965412873",
        "528371946", "473956281", "619284735",
    ];
    let board = check(
        &[
            "2........", "..65.....", "15.72.3.8", "3...97.14", ".4.8...9.", "..5.1....",
            "5.8...9..", ".7.....81", ".....4...",
        ],
        &solution,
    );
    assert!(board.is_solved());
    assert_eq!(digits(&board), solution);
}

#[test]
fn twenty_four_clues() {
    let solution = [
        "342786951", "198523467", "765194283", "823675149", "916248735", "574931826",
        "639412578", "451867392", "287359614",
    ];
    let board = check(
        &[
            "34..8....", "1......67", "..51...83", "8.......9", ".16.4....", "....3....",
            "..9.....8", ".5...7.9.", "2.7.5....",
        ],
        &solution,
    );
    assert!(board.is_solved());
    assert_eq!(digits(&board), solution);
}

#[test]
fn twenty_five_clues() {
    let solution = [
        "694253187", "513867942", "782149653", "139528476", "267431598", "458796231",
        "926385714", "841972365", "375614829",
    ];
    let board = check(
        &[
            "...2.3.8.", "..3.6.9..", ".8...96..", "1....8...", ".67.3.5..", ".5..9....",
            "9.6.....4", ".4......5", "37...4...",
        ],
        &solution,
    );
    assert!(board.is_solved());
    assert_eq!(digits(&board), solution);
}

#[test]
fn twenty_five_clues_again() {
    // the last step takes colouring
    let solution = [
        "278654319", "519378426", "436291578", "861439257", "345782691", "927516834",
        "152847963", "694123785", "783965142",
    ];
    let board = check(
        &[
            "....5431.", "5..37...6", ".........", "86..3...7", ".4.7.....", "9....6...",
            ".......6.", ".94...7.5", ".83.6...2",
        ],
        &solution,
    );
    assert!(board.is_solved());
    assert_eq!(digits(&board), solution);
}

#[test]
fn hidden_singles_alone_solve_an_easy_puzzle() {
    let solution = [
        "861472539", "923165847", "574839162", "689241375", "452387916", "137956284",
        "395714628", "716528493", "248693751",
    ];
    let mut board = load(&[
        "8.1.....9", "9.......7", "574...16.", ".8...13..", "4..3.7..6", "1..95..8.",
        "....1.6..", "7..52..9.", ".....3...",
    ]);
    assert!(!board.is_solved());
    let mut placed = 0;
    while board.place_hidden_single().unwrap() {
        placed += 1;
    }
    assert_eq!(placed, 11);
    assert!(board.is_solved());
    assert_eq!(digits(&board), solution);
    for t in 0..sudoku::solve::TECHNIQUES {
        assert_eq!(board.apply_technique(t), Ok(false));
    }
}

#[test]
fn a_hidden_single_is_found_and_placed() {
    let mut board = Board::new(4);
    for col in 1..4 {
        board.clean_cell(Cell { row: 2, col }, 3).unwrap();
    }
    assert_eq!(board.find_hidden_single(Cell { row: 2, col: 0 }), Some(3));
    assert_eq!(board.find_hidden_single(Cell { row: 2, col: 1 }), None);
    assert_eq!(board.find_hidden_single(Cell { row: 0, col: 0 }), None);
    assert_eq!(board.place_if_hidden_single(Cell { row: 0, col: 0 }), Ok(false));
    assert_eq!(board.place_if_hidden_single(Cell { row: 2, col: 0 }), Ok(true));
    assert_eq!(board.get_cell_coords(2, 0), Some(0b1000));
    assert_eq!(board.get_cell_coords(3, 0), Some(0b1_0110));
    assert_eq!(board.get_cell_coords(3, 1), Some(0b1_0110));
    assert_eq!(board.get_cell_coords(0, 0), Some(0b1_0110));
    assert_eq!(board.find_hidden_single(Cell { row: 2, col: 0 }), None);
}

#[test]
fn the_hidden_digit_of_the_row_comes_first() {
    let mut board = Board::new(4);
    // 4 is hidden in the row of the cell, 2 in its column
    for col in 1..4 {
        board.clean_cell(Cell { row: 0, col }, 4).unwrap();
    }
    for row in 1..4 {
        board.clean_cell(Cell { row, col: 0 }, 2).unwrap();
    }
    assert_eq!(board.find_hidden_single(Cell { row: 0, col: 0 }), Some(4));
    assert_eq!(board.place_hidden_single(), Ok(true));
    assert_eq!(board.get_cell_coords(0, 0), Some(0b1_0000));
}

#[test]
fn colouring_finishes_what_the_other_techniques_leave() {
    let solution = [
        "278654319", "519378426", "436291578", "861439257", "345782691", "927516834",
        "152847963", "694123785", "783965142",
    ];
    let mut board = load(&[
        "....5431.", "5..37...6", ".........", "86..3...7", ".4.7.....", "9....6...",
        ".......6.", ".94...7.5", ".83.6...2",
    ]);
    let mut t = 0;
    while t < sudoku::solve::TECHNIQUES - 1 {
        if board.apply_technique(t).unwrap() {
            t = 0;
        } else {
            t += 1;
        }
    }
    assert!(!board.is_solved());
    assert!(holds_solution(&board, &solution));
    let map = sudoku::colouring::from_board(&board).unwrap();
    assert!(!map.placed.is_empty() || !map.eliminated.is_empty());
    for (cell, val) in &map.placed {
        assert_eq!(solution[cell.row].as_bytes()[cell.col], b'0' + *val as u8);
    }
    for (cell, val) in &map.eliminated {
        assert_ne!(solution[cell.row].as_bytes()[cell.col], b'0' + *val as u8);
    }
    assert_eq!(board.solve(), Ok(()));
    assert!(board.is_solved());
    assert_eq!(digits(&board), solution);
}

#[test]
fn placing_a_solved_grid_in_any_order_solves_the_board() {
    let solution = [
        "534678912", "672195348", "198342567", "859761423", "426853791", "713924856",
        "961537284", "287419635", "345286179",
    ];
    for step in [1, 2, 4, 5, 7, 8, 10, 11, 13, 14, 16, 17, 19, 20, 40, 80] {
        let mut board = Board::new(9);
        for i in 0..81 {
            let at = (i * step + 3) % 81;
            let (row, col) = (at / 9, at % 9);
            let d = solution[row].as_bytes()[col] - b'0';
            assert_eq!(board.place_digit(d as u16, Cell { row, col }), Ok(()));
        }
        assert!(board.is_solved());
        assert_eq!(digits(&board), solution);
    }
}

fn peers(board: &Board, at: Cell) -> Vec<Cell> {
    let n = board.size();
    let mut out = Vec::new();
    for row in 0..n {
        for col in 0..n {
            let other = Cell { row, col };
            if other != at && at.can_see(board, &other) {
                out.push(other);
            }
        }
    }
    out
}

fn assert_sound(board: &Board) {
    let n = board.size();
    for row in 0..n {
        for col in 0..n {
            let m = board.get_cell_coords(row, col).unwrap();
            assert_ne!(m, 0, "no cell is without candidates");
            if m.count_ones() == 1 {
                for p in peers(board, Cell { row, col }) {
                    assert_eq!(board.get_cell(&p).unwrap() & m, 0, "no peer offers a placed digit");
                }
            }
        }
    }
}

#[test]
fn no_cell_runs_empty_and_no_peer_keeps_a_placed_digit() {
    let mut board = Board::new(9);
    assert_sound(&board);
    let steps: [(u16, usize, usize); 8] =
        [(5, 0, 0), (3, 0, 1), (7, 0, 4), (6, 1, 0), (1, 1, 3), (9, 1, 4), (5, 1, 5), (9, 2, 1)];
    for (val, row, col) in steps {
        assert_eq!(board.place_digit(val, Cell { row, col }), Ok(()));
        assert_sound(&board);
    }
    assert_eq!(board.clean_cell(Cell { row: 8, col: 8 }, 1), Ok(true));
    assert_sound(&board);
    for d in 2..9 {
        assert_eq!(board.clean_cell(Cell { row: 8, col: 8 }, d), Ok(true));
        assert_sound(&board);
    }
    assert_eq!(board.get_cell_coords(8, 8), Some(1 << 9));
    assert_eq!(board.get_cell_coords(8, 0), Some(0b01_1001_1110));
    // what fails leaves no cell empty either
    assert_eq!(board.clean_cell(Cell { row: 8, col: 8 }, 9), Err(Contradiction));
    assert_eq!(board.place_digit(5, Cell { row: 0, col: 8 }), Err(Contradiction));
    let n = board.size();
    for row in 0..n {
        for col in 0..n {
            assert_ne!(board.get_cell_coords(row, col), Some(0));
        }
    }
}

#[test]
fn the_same_puzzle_gives_the_same_board() {
    let puzzle = [
        "...345..9", "...82...4", "834.1....", ".....3.6.", ".18......", ".2..587..",
        "9.2...5..", "3....74.6", ".8.5.....",
    ];
    let mut first = load(&puzzle);
    let mut second = load(&puzzle);
    assert_eq!(first.cells, second.cells);
    assert_eq!(first.solve(), second.solve());
    assert_eq!(first.cells, second.cells);
    let mut partly = load(&puzzle);
    let mut again = load(&puzzle);
    for t in [3, 1, 7, 0, 5] {
        assert_eq!(partly.apply_technique(t), again.apply_technique(t));
        assert_eq!(partly.cells, again.cells);
    }
}

#[test]
fn a_six_board_is_solved() {
    let solution = ["516423", "234156", "152364", "463215", "325641", "641532"];
    let board = check(&[".1642.", "2.....", "..2...", ".....5", ".....1", ".4..3."], &solution);
    assert!(board.is_solved());
    assert_eq!(digits(&board), solution);
    let text: String = sudoku::format::format(&board).unwrap().iter().collect();
    assert_eq!(
        text,
        "╔═══╤═══╗\n\
         ║516│423║\n\
         ║234│156║\n\
         ╟───┼───╢\n\
         ║152│364║\n\
         ║463│215║\n\
         ╟───┼───╢\n\
         ║325│641║\n\
         ║641│532║\n\
         ╚═══╧═══╝"
    );
}
