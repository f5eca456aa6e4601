use sudoku::board::{Board, Cell, Contradiction, Region};
use sudoku::colouring;
use sudoku::groups;
use sudoku::hiddens;
use sudoku::intersections;
use sudoku::intersections::Intersection;
use sudoku::misc::Unit;
use sudoku::nakeds;
use sudoku::xwings;
use sudoku::ywings;

fn cell(row: usize, col: usize) -> Cell {
    Cell { row, col }
}

fn mask(digits: &[u16]) -> u16 {
    digits.iter().fold(0, |m, d| m | 1 << d)
}

fn keep(board: &mut Board, at: Cell, digits: &[u16]) {
    for d in 1..=9 {
        if !digits.contains(&d) {
            board.clean_cell(at, d).unwrap();
        }
    }
}

fn strike(board: &mut Board, cells: &[Cell], d: u16) {
    for c in cells {
        board.clean_cell(*c, d).unwrap();
    }
}

#[test]
fn naked_pair_clears_its_row_and_box() {
    let mut board = Board::new(9);
    keep(&mut board, cell(0, 0), &[1, 2]);
    keep(&mut board, cell(0, 1), &[1, 2]);
    let found = nakeds::from_board2(&board);
    assert_eq!(found.len(), 1);
    assert_eq!(found[0].cells, vec![cell(0, 0), cell(0, 1)]);
    assert_eq!(found[0].vals, mask(&[1, 2]));
    assert!(found[0].relation.row);
    assert!(!found[0].relation.col);
    assert!(found[0].relation.reg);
    assert_eq!(board.solve(), Ok(()));
    for col in 2..9 {
        assert_eq!(board.get_cell_coords(0, col).unwrap() & mask(&[1, 2]), 0);
    }
    for row in 1..3 {
        for col in 0..3 {
            assert_eq!(board.get_cell_coords(row, col).unwrap() & mask(&[1, 2]), 0);
        }
    }
    assert_eq!(board.get_cell_coords(0, 0), Some(mask(&[1, 2])));
    assert_eq!(board.get_cell_coords(0, 1), Some(mask(&[1, 2])));
    assert_eq!(board.get_cell_coords(3, 0), Some(mask(&[1, 2, 3, 4, 5, 6, 7, 8, 9])));
}

#[test]
fn naked_pair_in_one_pass() {
    let mut board = Board::new(9);
    keep(&mut board, cell(4, 2), &[6, 9]);
    keep(&mut board, cell(4, 7), &[6, 9]);
    assert_eq!(board.clean_nakeds(2), Ok(true));
    for col in [0, 1, 3, 4, 5, 6, 8] {
        assert_eq!(board.get_cell_coords(4, col), Some(mask(&[1, 2, 3, 4, 5, 7, 8])));
    }
    assert_eq!(board.get_cell_coords(3, 2), Some(mask(&[1, 2, 3, 4, 5, 6, 7, 8, 9])));
    assert_eq!(board.clean_nakeds(2), Ok(false));
}

#[test]
fn naked_triple_is_found() {
    let mut board = Board::new(9);
    keep(&mut board, cell(2, 8), &[1, 2]);
    keep(&mut board, cell(5, 8), &[2, 3]);
    keep(&mut board, cell(7, 8), &[1, 3]);
    assert!(nakeds::from_board2(&board).is_empty());
    let found = nakeds::from_board3(&board);
    assert_eq!(found.len(), 1);
    assert_eq!(found[0].cells, vec![cell(2, 8), cell(5, 8), cell(7, 8)]);
    assert_eq!(found[0].vals, mask(&[1, 2, 3]));
    assert!(found[0].relation.col && !found[0].relation.row && !found[0].relation.reg);
    assert!(nakeds::from_board4(&board).is_empty());
    assert_eq!(groups::from_board(&board).len(), 1);
    assert_eq!(board.clean_groups(), Ok(true));
    assert_eq!(board.get_cell_coords(0, 8), Some(mask(&[4, 5, 6, 7, 8, 9])));
    assert_eq!(board.get_cell_coords(0, 7), Some(mask(&[1, 2, 3, 4, 5, 6, 7, 8, 9])));
}

#[test]
fn group_relations_and_repeats() {
    let board = Board::new(9);
    let a = nakeds::Group::of_cell(cell(0, 0), mask(&[1, 2]));
    let b = nakeds::Group::of_cell(cell(1, 1), mask(&[2, 3]));
    let both = a.add(&b);
    assert_eq!(both.cells, vec![cell(0, 0), cell(1, 1)]);
    assert_eq!(both.vals, mask(&[1, 2, 3]));
    assert!(both.no_repeats());
    let related = both.calc_relations(&board);
    assert!(!related.relation.row && !related.relation.col && related.relation.reg);
    let twice = a.add(&a);
    assert!(!twice.no_repeats());
    let far = a.add(&nakeds::Group::of_cell(cell(4, 4), 0)).calc_relations(&board);
    assert!(!far.relation.row && !far.relation.col && !far.relation.reg);
}

#[test]
fn hidden_pair_confines_its_cells() {
    let mut board = Board::new(9);
    let rest: Vec<Cell> = (2..9).map(|col| cell(0, col)).collect();
    strike(&mut board, &rest, 1);
    strike(&mut board, &rest, 2);
    let found = hiddens::from_board2(&board);
    assert_eq!(found.len(), 1);
    assert_eq!(found[0].cells, vec![cell(0, 0), cell(0, 1)]);
    assert_eq!(found[0].vals, mask(&[1, 2]));
    assert!(hiddens::from_board3(&board).is_empty());
    assert!(hiddens::from_board4(&board).is_empty());
    assert_eq!(board.clean_hiddens(2), Ok(true));
    assert_eq!(board.get_cell_coords(0, 0), Some(mask(&[1, 2])));
    assert_eq!(board.get_cell_coords(0, 1), Some(mask(&[1, 2])));
    assert_eq!(board.get_cell_coords(0, 2), Some(mask(&[3, 4, 5, 6, 7, 8, 9])));
    assert_eq!(board.get_cell_coords(1, 0), Some(mask(&[1, 2, 3, 4, 5, 6, 7, 8, 9])));
    assert_eq!(board.clean_hiddens(2), Ok(false));
}

#[test]
fn no_known_tells_open_cells() {
    let mut board = Board::new(4);
    assert!(board.no_known(&[cell(0, 0), cell(1, 1)]));
    board.place_digit(3, cell(1, 1)).unwrap();
    assert!(!board.no_known(&[cell(0, 0), cell(1, 1)]));
    assert!(board.no_known(&[]));
}

#[test]
fn x_wing_clears_its_columns() {
    let mut board = Board::new(9);
    for row in [1, 5] {
        let rest: Vec<Cell> = [0, 1, 3, 4, 5, 7, 8].iter().map(|col| cell(row, *col)).collect();
        strike(&mut board, &rest, 7);
    }
    let found = xwings::from_board(&board);
    assert_eq!(found.len(), 1);
    assert!(!found[0].clear_rows);
    assert_eq!(found[0].rows, [1, 5]);
    assert_eq!(found[0].cols, [2, 6]);
    assert_eq!(found[0].val, 7);
    assert_eq!(xwings::from_board2(&board).len(), 1);
    assert!(xwings::from_board3(&board).is_empty());
    assert_eq!(xwings::fish(&board, 2).len(), 1);
    assert_eq!(board.clean_xwings2(), Ok(true));
    for row in [0, 2, 3, 4, 6, 7, 8] {
        assert_eq!(board.get_cell_coords(row, 2), Some(mask(&[1, 2, 3, 4, 5, 6, 8, 9])));
        assert_eq!(board.get_cell_coords(row, 6), Some(mask(&[1, 2, 3, 4, 5, 6, 8, 9])));
        assert_eq!(board.get_cell_coords(row, 4), Some(mask(&[1, 2, 3, 4, 5, 6, 7, 8, 9])));
    }
    assert_eq!(board.get_cell_coords(1, 2), Some(mask(&[1, 2, 3, 4, 5, 6, 7, 8, 9])));
    assert_eq!(board.clean_xwings2(), Ok(false));
}

#[test]
fn swordfish_clears_its_rows() {
    let mut board = Board::new(9);
    for col in [0, 4, 8] {
        let rest: Vec<Cell> = [0, 2, 3, 5, 6, 8].iter().map(|row| cell(*row, col)).collect();
        strike(&mut board, &rest, 4);
    }
    assert!(xwings::from_board(&board).is_empty());
    let found = xwings::from_board3(&board);
    assert_eq!(found.len(), 1);
    assert!(found[0].clear_rows);
    assert_eq!(found[0].rows, [1, 4, 7]);
    assert_eq!(found[0].cols, [0, 4, 8]);
    assert_eq!(found[0].val, 4);
    assert_eq!(board.clean_xwings3(), Ok(true));
    for row in [1, 4, 7] {
        assert_eq!(board.get_cell_coords(row, 1), Some(mask(&[1, 2, 3, 5, 6, 7, 8, 9])));
        assert_eq!(board.get_cell_coords(row, 0), Some(mask(&[1, 2, 3, 4, 5, 6, 7, 8, 9])));
    }
}

#[test]
fn choices_are_the_ascending_subsets() {
    assert_eq!(
        xwings::choices(4, 2),
        vec![vec![0, 1], vec![0, 2], vec![0, 3], vec![1, 2], vec![1, 3], vec![2, 3]]
    );
    assert_eq!(xwings::choices(3, 3), vec![vec![0, 1, 2]]);
    assert_eq!(xwings::choices(9, 3).len(), 84);
    assert!(xwings::choices(2, 3).is_empty());
}

#[test]
fn y_wing_clears_the_cell_that_sees_both_wings() {
    let mut board = Board::new(9);
    keep(&mut board, cell(0, 0), &[1, 2]);
    keep(&mut board, cell(0, 5), &[1, 3]);
    keep(&mut board, cell(5, 0), &[2, 3]);
    let found = ywings::from_board(&board);
    assert_eq!(found.len(), 1);
    assert_eq!(found[0].origin, cell(0, 0));
    assert_eq!(found[0].foci, (cell(0, 5), cell(5, 0)));
    assert_eq!(found[0].target, cell(5, 5));
    assert_eq!(found[0].val, 3);
    assert_eq!(ywings::bivalue_cells(&board), vec![cell(0, 0), cell(0, 5), cell(5, 0)]);
    assert_eq!(board.clean_ywings(), Ok(true));
    assert_eq!(board.get_cell_coords(5, 5), Some(mask(&[1, 2, 4, 5, 6, 7, 8, 9])));
    assert_eq!(board.get_cell_coords(5, 4), Some(mask(&[1, 2, 3, 4, 5, 6, 7, 8, 9])));
    assert_eq!(board.clean_ywings(), Ok(false));
}

#[test]
fn pointing_pair_clears_the_rest_of_the_region() {
    let mut board = Board::new(9);
    let rest: Vec<Cell> = (3..9).map(|col| cell(0, col)).collect();
    strike(&mut board, &rest, 5);
    assert_eq!(board.clean_intersections(), Ok(true));
    for row in 1..3 {
        for col in 0..3 {
            assert_eq!(board.get_cell_coords(row, col), Some(mask(&[1, 2, 3, 4, 6, 7, 8, 9])));
        }
    }
    for col in 0..3 {
        assert_eq!(board.get_cell_coords(0, col), Some(mask(&[1, 2, 3, 4, 5, 6, 7, 8, 9])));
    }
    assert_eq!(board.get_cell_coords(3, 0), Some(mask(&[1, 2, 3, 4, 5, 6, 7, 8, 9])));
    assert_eq!(board.clean_intersections(), Ok(false));
}

#[test]
fn box_line_reduction_clears_the_rest_of_the_row() {
    let mut board = Board::new(9);
    let rest: Vec<Cell> = (1..3).flat_map(|row| (0..3).map(move |col| cell(row, col))).collect();
    strike(&mut board, &rest, 8);
    let found = intersections::from_board(&board);
    assert_eq!(found.len(), 1);
    assert_eq!(found[0].val, 8);
    assert_eq!(found[0].cells, (3..9).map(|col| cell(0, col)).collect::<Vec<Cell>>());
    assert_eq!(board.clean_intersections(), Ok(true));
    for col in 3..9 {
        assert_eq!(board.get_cell_coords(0, col), Some(mask(&[1, 2, 3, 4, 5, 6, 7, 9])));
    }
}

#[test]
fn an_intersection_needs_open_cells_in_the_overlap() {
    let mut board = Board::new(9);
    let row_and_box = Intersection::new(Unit::Row(0), Unit::Reg(0), 5);
    assert!(row_and_box.is_valid(&board).is_none());
    let rest: Vec<Cell> = (3..9).map(|col| cell(0, col)).collect();
    strike(&mut board, &rest, 5);
    let target = row_and_box.is_valid(&board).unwrap();
    assert_eq!(target.val, 5);
    assert_eq!(
        target.cells,
        vec![cell(1, 0), cell(2, 0), cell(1, 1), cell(2, 1), cell(1, 2), cell(2, 2)]
    );
    board.place_digit(5, cell(0, 1)).unwrap();
    assert!(row_and_box.is_valid(&board).is_none());
}

#[test]
fn a_fresh_board_has_nothing_to_colour() {
    let board = Board::new(9);
    let map = colouring::from_board(&board).unwrap();
    assert!(map.placed.is_empty());
    assert!(map.eliminated.is_empty());
    let graph = colouring::Colouring::new(&board);
    assert!(graph.nodes.is_empty());
}

#[test]
fn three_cells_that_pair_up_cannot_be_coloured() {
    let regions: Vec<Region> = vec![
        vec![cell(0, 0), cell(1, 1)],
        vec![cell(1, 1), cell(2, 2)],
        vec![cell(0, 0), cell(2, 2)],
    ];
    let mut board = Board::new_custom_regions(4, regions);
    assert!(colouring::from_board(&board).is_err());
    assert_eq!(board.clean_colouring(), Err(Contradiction));
    assert_eq!(board.solve(), Err(Contradiction));
}

fn pairs_around_a_corner() -> Board {
    // digit 1 is left in two cells of row 0 and in two cells of column 0:
    // (0,0)-(0,1) and (0,0)-(1,0); the ends share the box with other cells that offer 1
    let mut board = Board::new(9);
    strike(&mut board, &(2..9).map(|c| cell(0, c)).collect::<Vec<Cell>>(), 1);
    strike(&mut board, &(2..9).map(|r| cell(r, 0)).collect::<Vec<Cell>>(), 1);
    board
}

#[test]
fn a_pair_of_pairs_forces_the_corner() {
    let mut board = pairs_around_a_corner();
    let graph = colouring::Colouring::new(&board);
    let nodes: Vec<(Cell, u16)> = graph.nodes.iter().map(|n| (n.cell, n.val)).collect();
    assert_eq!(nodes, vec![(cell(0, 0), 1), (cell(0, 1), 1), (cell(1, 0), 1)]);
    assert_eq!(graph.nodes[0].connects_to, vec![(1, true), (2, true)]);
    assert_eq!(graph.nodes[1].connects_to, vec![(0, true), (2, false)]);
    assert_eq!(graph.nodes[2].connects_to, vec![(0, true), (1, false)]);
    // were the corner without 1, both ends would hold it, which see each other
    let map = colouring::from_board(&board).unwrap();
    assert_eq!(map.placed, vec![(cell(0, 0), 1)]);
    assert_eq!(
        map.eliminated,
        vec![
            (cell(0, 1), 1),
            (cell(1, 0), 1),
            (cell(1, 1), 1),
            (cell(1, 2), 1),
            (cell(2, 1), 1),
            (cell(2, 2), 1)
        ]
    );
    assert_eq!(board.clean_colouring(), Ok(true));
    assert_eq!(board.get_cell_coords(0, 0), Some(mask(&[1])));
    assert_eq!(board.get_cell_coords(0, 1), Some(mask(&[2, 3, 4, 5, 6, 7, 8, 9])));
    assert_eq!(board.get_cell_coords(2, 2), Some(mask(&[2, 3, 4, 5, 6, 7, 8, 9])));
    assert_eq!(board.get_cell_coords(3, 3), Some(mask(&[1, 2, 3, 4, 5, 6, 7, 8, 9])));
    assert_eq!(board.clean_colouring(), Ok(false));
}

#[test]
fn a_chain_of_pairs_can_be_coloured_both_ways() {
    // (0,0)-(0,3), (0,0)-(3,0), (3,0)-(3,3): the ends (0,3) and (3,3) share column 3
    let mut board = Board::new(9);
    strike(&mut board, &(1..9).filter(|c| *c != 3).map(|c| cell(0, c)).collect::<Vec<Cell>>(), 1);
    strike(&mut board, &(1..9).filter(|r| *r != 3).map(|r| cell(r, 0)).collect::<Vec<Cell>>(), 1);
    strike(&mut board, &(1..9).filter(|c| *c != 3).map(|c| cell(3, c)).collect::<Vec<Cell>>(), 1);
    let graph = colouring::Colouring::new(&board);
    let nodes: Vec<(Cell, u16)> = graph.nodes.iter().map(|n| (n.cell, n.val)).collect();
    assert_eq!(nodes, vec![(cell(0, 0), 1), (cell(0, 3), 1), (cell(3, 0), 1), (cell(3, 3), 1)]);
    assert_eq!(graph.nodes[3].connects_to, vec![(1, false), (2, true)]);
    let open = vec![colouring::State::Open; 4];
    let mut all = Vec::new();
    graph.get_possible_colourings(&open, &mut all);
    assert_eq!(all, vec![vec![true, false, false, true], vec![false, true, true, false]]);
    let map = colouring::from_board(&board).unwrap();
    assert!(map.placed.is_empty());
    // whichever way, column 3 has its 1 in row 0 or in row 3
    assert_eq!(
        map.eliminated,
        (1..9).filter(|r| *r != 3).map(|r| (cell(r, 3), 1)).collect::<Vec<(Cell, u16)>>()
    );
    assert_eq!(board.clean_colouring(), Ok(true));
    assert_eq!(board.get_cell_coords(5, 3), Some(mask(&[2, 3, 4, 5, 6, 7, 8, 9])));
    assert_eq!(board.get_cell_coords(0, 3), Some(mask(&[1, 2, 3, 4, 5, 6, 7, 8, 9])));
}

#[test]
fn colouring_states_follow_from_one_another() {
    let board = pairs_around_a_corner();
    let graph = colouring::Colouring::new(&board);
    let open = vec![colouring::State::Open; 3];
    let mut states = open.clone();
    assert!(graph.colour(&mut states, 0, true));
    assert_eq!(
        states,
        vec![colouring::State::True, colouring::State::False, colouring::State::False]
    );
    let mut states = open.clone();
    assert!(!graph.colour(&mut states, 0, false));
    let mut states = open.clone();
    assert!(graph.colour(&mut states, 1, false));
    assert_eq!(
        states,
        vec![colouring::State::True, colouring::State::False, colouring::State::False]
    );
    let mut states = open.clone();
    assert!(!graph.colour(&mut states, 2, true));
    let mut all = Vec::new();
    graph.get_possible_colourings(&open, &mut all);
    assert_eq!(all, vec![vec![true, false, false]]);
    assert_eq!(graph.placed_digits(&all[0]), vec![(cell(0, 0), 1)]);
}

#[test]
fn an_empty_rectangle_clears_the_crossing() {
    let mut board = Board::new(9);
    assert_eq!(sudoku::rectangles::from_board(&board), None);
    // 1 has two places in row 0, and in the middle box it is left in row 4 and column 4 only
    strike(&mut board, &[1, 2, 3, 5, 6, 7, 8].map(|c| cell(0, c)), 1);
    strike(&mut board, &[cell(3, 3), cell(3, 5), cell(5, 3), cell(5, 5)], 1);
    assert_eq!(sudoku::rectangles::from_board(&board), Some((vec![cell(4, 0)], 1)));
    // the same along a column
    let mut board = Board::new(9);
    strike(&mut board, &[1, 2, 3, 5, 6, 7, 8].map(|r| cell(r, 8)), 6);
    strike(&mut board, &[cell(3, 3), cell(3, 5), cell(5, 3), cell(5, 5)], 6);
    assert_eq!(sudoku::rectangles::from_board(&board), Some((vec![cell(0, 4)], 6)));
}
