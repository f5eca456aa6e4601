use sudoku::bits;
use sudoku::board::{listed, listed_cell, region_holds, Board, Cell, Contradiction};
use sudoku::defaults::{
    calc_region, calc_region_contents, calc_region_offsets, default_cell, default_region_bounds,
    default_regions,
};
use sudoku::misc::{cells, next_cell, unit_cells, units, Unit};

fn cell(row: usize, col: usize) -> Cell {
    Cell { row, col }
}

#[test]
fn masks_are_sets_of_digits() {
    assert!(bits::is_set(0b1010, 1));
    assert!(!bits::is_set(0b1010, 2));
    assert!(bits::is_set(0b1010, 3));
    assert_eq!(bits::bit_of(0), 1);
    assert_eq!(bits::bit_of(9), 0b10_0000_0000);
    assert_eq!(bits::cleared(0b1010, 3), 0b0010);
    assert_eq!(bits::cleared(0b1010, 2), 0b1010);
    assert_eq!(bits::count_ones(0), 0);
    assert_eq!(bits::count_ones(0b11_1111_1110), 9);
    assert_eq!(bits::count_ones(0xffff), 16);
    assert!(bits::is_single(0b1000));
    assert!(!bits::is_single(0));
    assert!(!bits::is_single(0b1010));
    assert!(bits::is_single(0x8000));
    assert_eq!(bits::lowest_digit(0b1010), 1);
    assert_eq!(bits::lowest_digit(0x8000), 15);
    assert_eq!(bits::default_mask(1), 0b10);
    assert_eq!(bits::default_mask(15), 0xfffe);
}

#[test]
fn default_cells() {
    assert_eq!(default_cell(4), 0b1_1110);
    assert_eq!(default_cell(6), 0b111_1110);
    assert_eq!(default_cell(9), 0b11_1111_1110);
}

#[test]
fn default_bounds() {
    assert_eq!(default_region_bounds(4), (2, 2));
    assert_eq!(default_region_bounds(6), (3, 2));
    assert_eq!(default_region_bounds(9), (3, 3));
}

#[test]
fn default_regions_of_the_small_board() {
    assert_eq!(
        default_regions(4),
        vec![
            vec![cell(0, 0), cell(1, 0), cell(0, 1), cell(1, 1)],
            vec![cell(2, 0), cell(3, 0), cell(2, 1), cell(3, 1)],
            vec![cell(0, 2), cell(1, 2), cell(0, 3), cell(1, 3)],
            vec![cell(2, 2), cell(3, 2), cell(2, 3), cell(3, 3)],
        ]
    );
}

#[test]
fn default_regions_of_the_six_board() {
    let regions = default_regions(6);
    assert_eq!(regions.len(), 6);
    assert_eq!(
        regions[0],
        vec![cell(0, 0), cell(1, 0), cell(0, 1), cell(1, 1), cell(0, 2), cell(1, 2)]
    );
    assert_eq!(
        regions[1],
        vec![cell(2, 0), cell(3, 0), cell(2, 1), cell(3, 1), cell(2, 2), cell(3, 2)]
    );
    assert_eq!(
        regions[3],
        vec![cell(0, 3), cell(1, 3), cell(0, 4), cell(1, 4), cell(0, 5), cell(1, 5)]
    );
    assert_eq!(regions, calc_region(3, 2));
}

#[test]
fn default_regions_partition_the_large_board() {
    let regions = default_regions(9);
    assert_eq!(regions.len(), 9);
    for row in 0..9 {
        for col in 0..9 {
            let holders: Vec<usize> =
                (0..9).filter(|i| regions[*i].contains(&cell(row, col))).collect();
            assert_eq!(holders, vec![(col / 3) * 3 + row / 3]);
        }
    }
}

#[test]
fn region_offsets_and_contents() {
    assert_eq!(calc_region_offsets(2, 3), vec![(0, 0), (0, 2), (0, 4), (3, 0), (3, 2), (3, 4)]);
    assert_eq!(
        calc_region_contents(2, 3, 4, 6),
        vec![cell(6, 4), cell(7, 4), cell(8, 4), cell(6, 5), cell(7, 5), cell(8, 5)]
    );
}

#[test]
fn cells_in_reading_order() {
    assert_eq!(cells(2), vec![cell(0, 0), cell(0, 1), cell(1, 0), cell(1, 1)]);
    assert_eq!(cells(9).len(), 81);
    assert_eq!(cells(9)[40], cell(4, 4));
    assert_eq!(next_cell(cell(0, 0), 9), cell(0, 1));
    assert_eq!(next_cell(cell(0, 8), 9), cell(1, 0));
    assert_eq!(next_cell(cell(8, 8), 9), cell(9, 0));
}

#[test]
fn units_of_a_board() {
    let board = Board::new(4);
    let all = units(&board);
    assert_eq!(all.len(), 12);
    assert_eq!(all[0], Unit::Reg(0));
    assert_eq!(all[3], Unit::Reg(3));
    assert_eq!(all[4], Unit::Row(0));
    assert_eq!(all[8], Unit::Col(0));
    assert_eq!(all[11], Unit::Col(3));
    assert_eq!(
        unit_cells(&board, Unit::Row(2)),
        vec![cell(2, 0), cell(2, 1), cell(2, 2), cell(2, 3)]
    );
    assert_eq!(
        unit_cells(&board, Unit::Col(1)),
        vec![cell(0, 1), cell(1, 1), cell(2, 1), cell(3, 1)]
    );
    assert_eq!(
        unit_cells(&board, Unit::Reg(2)),
        vec![cell(0, 2), cell(1, 2), cell(0, 3), cell(1, 3)]
    );
}

#[test]
fn lists_hold_what_is_in_them() {
    assert!(listed(&[3, 5], 5));
    assert!(!listed(&[3, 5], 4));
    assert!(!listed(&[], 0));
    assert!(listed_cell(&[cell(1, 2)], cell(1, 2)));
    assert!(!listed_cell(&[cell(1, 2)], cell(2, 1)));
    assert!(region_holds(&vec![cell(0, 0), cell(1, 1)], cell(1, 1)));
    assert!(!region_holds(&vec![cell(0, 0), cell(1, 1)], cell(0, 1)));
}

#[test]
fn cells_see_their_row_column_and_regions() {
    let board = Board::new(9);
    assert!(cell(0, 0).can_see(&board, &cell(0, 8)));
    assert!(cell(0, 0).can_see(&board, &cell(8, 0)));
    assert!(cell(0, 0).can_see(&board, &cell(2, 2)));
    assert!(cell(0, 0).can_see(&board, &cell(0, 0)));
    assert!(!cell(0, 0).can_see(&board, &cell(3, 3)));
    assert!(!cell(2, 2).can_see(&board, &cell(3, 3)));
    let custom = Board::new_custom_regions(4, vec![vec![cell(0, 0), cell(3, 3)]]);
    assert!(cell(0, 0).can_see(&custom, &cell(3, 3)));
    assert!(!cell(0, 1).can_see(&custom, &cell(3, 3)));
}

#[test]
fn a_new_board_offers_every_digit() {
    for size in [4, 6, 9] {
        let board = Board::new(size);
        assert_eq!(board.size(), size);
        assert_eq!(board.regions, default_regions(size));
        for row in 0..size {
            for col in 0..size {
                assert_eq!(board.get_cell_coords(row, col), Some(default_cell(size)));
                assert_eq!(board.mask(cell(row, col)), default_cell(size));
            }
        }
        assert_eq!(board.get_cell_coords(size, 0), None);
        assert_eq!(board.get_cell_coords(0, size), None);
        assert_eq!(board.get_cell(&cell(size, size)), None);
        assert!(!board.is_solved());
    }
}

#[test]
fn a_mask_can_be_written_through_the_board() {
    let mut board = Board::new(4);
    assert!(board.get_mut_cell_coords(4, 0).is_none());
    assert!(board.get_mut_cell_coords(0, 4).is_none());
    {
        let m = board.get_mut_cell_coords(2, 1).unwrap();
        assert_eq!(*m, 0b1_1110);
        *m = 0b110;
    }
    assert_eq!(board.get_cell_coords(2, 1), Some(0b110));
    assert_eq!(board.get_cell_coords(2, 2), Some(0b1_1110));
    assert_eq!(board.get_cell_coords(1, 1), Some(0b1_1110));
}

#[test]
fn elimination_says_whether_it_changed_the_board() {
    let mut board = Board::new(4);
    assert_eq!(board.clean_cell(cell(0, 0), 1), Ok(true));
    assert_eq!(board.clean_cell(cell(0, 0), 1), Ok(false));
    assert_eq!(board.get_cell_coords(0, 0), Some(0b1_1100));
    assert_eq!(board.clean_cell(cell(0, 0), 7), Ok(false));
    assert_eq!(board.clean_cell(cell(0, 0), 2), Ok(true));
    assert_eq!(board.clean_cell(cell(0, 0), 3), Ok(true));
    // the cell is down to 4, which has left its row, column and box
    assert_eq!(board.get_cell_coords(0, 0), Some(0b1_0000));
    assert_eq!(board.get_cell_coords(0, 3), Some(0b0_1110));
    assert_eq!(board.get_cell_coords(3, 0), Some(0b0_1110));
    assert_eq!(board.get_cell_coords(1, 1), Some(0b0_1110));
    assert_eq!(board.get_cell_coords(2, 2), Some(0b1_1110));
    assert_eq!(board.clean_cell(cell(0, 0), 4), Err(Contradiction));
    assert_eq!(board.get_cell_coords(0, 0), Some(0b1_0000));
}

#[test]
fn cleaning_a_row_a_column_and_the_regions() {
    let mut board = Board::new(4);
    assert_eq!(board.clean_row(1, &[0, 2], 3), Ok(true));
    assert_eq!(board.get_cell_coords(1, 0), Some(0b1_1110));
    assert_eq!(board.get_cell_coords(1, 1), Some(0b1_0110));
    assert_eq!(board.get_cell_coords(1, 2), Some(0b1_1110));
    assert_eq!(board.get_cell_coords(1, 3), Some(0b1_0110));
    assert_eq!(board.clean_row(1, &[0, 2], 3), Ok(false));
    assert_eq!(board.clean_col(3, &[1], 4), Ok(true));
    assert_eq!(board.get_cell_coords(0, 3), Some(0b0_1110));
    assert_eq!(board.get_cell_coords(1, 3), Some(0b1_0110));
    assert_eq!(board.get_cell_coords(3, 3), Some(0b0_1110));
    assert_eq!(board.clean_reg(cell(2, 0), &[cell(3, 1)], 1), Ok(true));
    assert_eq!(board.get_cell_coords(2, 0), Some(0b1_1100));
    assert_eq!(board.get_cell_coords(2, 1), Some(0b1_1100));
    assert_eq!(board.get_cell_coords(3, 0), Some(0b1_1100));
    assert_eq!(board.get_cell_coords(3, 1), Some(0b1_1110));
    assert_eq!(board.get_cell_coords(0, 0), Some(0b1_1110));
    assert_eq!(board.clean_region(0, &[], 2), Ok(true));
    assert_eq!(board.get_cell_coords(0, 0), Some(0b1_1010));
    assert_eq!(board.get_cell_coords(1, 1), Some(0b1_0010));
    assert_eq!(board.get_cell_coords(0, 2), Some(0b1_1110));
}

#[test]
fn unions_of_rows_columns_and_regions() {
    let mut board = Board::new(4);
    board.place_digit(1, cell(0, 0)).unwrap();
    board.place_digit(2, cell(0, 1)).unwrap();
    assert_eq!(board.get_row_nums(0, &[]), Some(0b1_1110));
    assert_eq!(board.get_row_nums(0, &[2, 3]), Some(0b0_0110));
    assert_eq!(board.get_row_nums(0, &[0, 1]), Some(0b1_1000));
    assert_eq!(board.get_row_nums(4, &[]), None);
    assert_eq!(board.get_col_nums(0, &[0]), Some(0b1_1100));
    assert_eq!(board.get_col_nums(1, &[1, 2, 3]), Some(0b0_0100));
    assert_eq!(board.get_col_nums(4, &[]), None);
    assert_eq!(board.get_reg_nums(cell(1, 1), &[cell(1, 0), cell(1, 1)]), Some(0b0_0110));
    assert_eq!(board.get_reg_nums(cell(1, 1), &[]), Some(0b1_1110));
    assert_eq!(board.get_box_nums(0, &[cell(0, 0), cell(0, 1)]), 0b1_1000);
}
