//! Hidden singles: a digit that no other cell of a cell's row, column or
//! regions offers is forced on that cell.

use vstd::prelude::*;
use crate::bits::{
    bit, is_single, lemma_bit, lemma_ops, lemma_within, lowest_digit, offers, single, within,
};
use crate::board::{listed, listed_cell, region_holds, Board, Cell, Contradiction};
use crate::grid::{lemma_refines_trans, Grid};
use crate::misc::{before, next_cell};

verus! {

impl Grid {
    /// Some cell of `row`, outside the columns `ignore`, offers `d`.
    pub open spec fn row_offers(self, row: usize, ignore: Seq<usize>, d: u16) -> bool {
        exists|col: usize|
            col < self.size() && !ignore.contains(col) && offers(
                #[trigger] self.at(Cell { row, col }),
                d,
            )
    }

    /// Some cell of `col`, outside the rows `ignore`, offers `d`.
    pub open spec fn col_offers(self, col: usize, ignore: Seq<usize>, d: u16) -> bool {
        exists|row: usize|
            row < self.size() && !ignore.contains(row) && offers(
                #[trigger] self.at(Cell { row, col }),
                d,
            )
    }

    /// Some cell of the region with the given index, outside `ignore`, offers `d`.
    pub open spec fn box_offers(self, index: int, ignore: Seq<Cell>, d: u16) -> bool {
        exists|t: int|
            0 <= t < self.regions[index].len() && !ignore.contains(self.regions[index][t])
                && offers(self.at(#[trigger] self.regions[index][t]), d)
    }

    /// Some cell of a region that holds `cell`, outside `ignore`, offers `d`.
    pub open spec fn reg_offers(self, cell: Cell, ignore: Seq<Cell>, d: u16) -> bool {
        exists|k: int|
            0 <= k < self.regions.len() && #[trigger] self.regions[k].contains(cell)
                && self.box_offers(k, ignore, d)
    }

    /// The cell offers `d` and no other cell of its row does.
    pub open spec fn hidden_in_row(self, cell: Cell, d: u16) -> bool {
        offers(self.at(cell), d) && !self.row_offers(cell.row, seq![cell.col], d)
    }

    /// The cell offers `d` and no other cell of its column does.
    pub open spec fn hidden_in_col(self, cell: Cell, d: u16) -> bool {
        offers(self.at(cell), d) && !self.col_offers(cell.col, seq![cell.row], d)
    }

    /// The cell offers `d` and no other cell of its regions does.
    pub open spec fn hidden_in_reg(self, cell: Cell, d: u16) -> bool {
        offers(self.at(cell), d) && !self.reg_offers(cell, seq![cell], d)
    }

    /// `d` is the digit that the rule forces on the open cell `cell`: the
    /// lowest one hidden in its row; if there is none, the lowest one hidden
    /// in its column; if there is none either, the lowest one hidden in its regions.
    pub open spec fn hidden_single(self, cell: Cell, d: u16) -> bool {
        &&& self.holds(cell)
        &&& !single(self.at(cell))
        &&& {
            ||| self.hidden_in_row(cell, d) && forall|e: u16| e < d ==> !self.hidden_in_row(cell, e)
            ||| (forall|e: u16| !self.hidden_in_row(cell, e)) && self.hidden_in_col(cell, d)
                && forall|e: u16| e < d ==> !self.hidden_in_col(cell, e)
            ||| (forall|e: u16| !self.hidden_in_row(cell, e)) && (forall|e: u16|
                !self.hidden_in_col(cell, e)) && self.hidden_in_reg(cell, d) && forall|e: u16|
                e < d ==> !self.hidden_in_reg(cell, e)
        }
    }

    /// No digit is forced on `cell`.
    pub open spec fn no_hidden_single(self, cell: Cell) -> bool {
        forall|d: u16| !self.hidden_single(cell, d)
    }

    /// `cell` is the first cell in reading order on which a digit is forced, and `d` is that digit.
    pub open spec fn first_hidden_single(self, cell: Cell, d: u16) -> bool {
        &&& self.hidden_single(cell, d)
        &&& forall|c: Cell| self.holds(c) && before(c, cell) ==> #[trigger] self.no_hidden_single(c)
    }
}

/// The digit that is forced on a cell is determined.
pub proof fn lemma_hidden_single_unique(g: Grid, cell: Cell, d: u16, e: u16)
    requires
        g.hidden_single(cell, d),
        g.hidden_single(cell, e),
    ensures
        d == e,
{
}

impl Board {
    /// The union of the masks of `row`, but for the columns in `ignore`;
    /// `None` for a row that is not on the board.
    pub fn get_row_nums(&self, row: usize, ignore: &[usize]) -> (r: Option<u16>)
        requires
            self@.shaped(),
        ensures
            (r is Some) == (row < self@.size()),
            r matches Some(m) ==> forall|d: u16| offers(m, d) == self@.row_offers(row, ignore@, d),
    {
        let n: usize = self.cells.len();
        if row >= n {
            return None;
        }
        let mut digits: u16 = 0;
        let mut col: usize = 0;
        proof {
            lemma_bit();
        }
        while col < n
            invariant
                self@.shaped(),
                n == self@.size(),
                row < n,
                col <= n,
                forall|d: u16|
                    offers(digits, d) == exists|c: usize|
                        c < col && !ignore@.contains(c) && offers(
                            #[trigger] self@.at(Cell { row, col: c }),
                            d,
                        ),
            decreases n - col,
        {
            if !listed(ignore, col) {
                let m: u16 = self.mask(Cell { row, col });
                proof {
                    lemma_ops();
                }
                digits = digits | m;
            }
            col += 1;
        }
        Some(digits)
    }

    /// The union of the masks of `col`, but for the rows in `ignore`; `None`
    /// for a column that is not on the board.
    pub fn get_col_nums(&self, col: usize, ignore: &[usize]) -> (r: Option<u16>)
        requires
            self@.shaped(),
        ensures
            (r is Some) == (col < self@.size()),
            r matches Some(m) ==> forall|d: u16| offers(m, d) == self@.col_offers(col, ignore@, d),
    {
        let n: usize = self.cells.len();
        if col >= n {
            return None;
        }
        let mut digits: u16 = 0;
        let mut row: usize = 0;
        proof {
            lemma_bit();
        }
        while row < n
            invariant
                self@.shaped(),
                n == self@.size(),
                col < n,
                row <= n,
                forall|d: u16|
                    offers(digits, d) == exists|r: usize|
                        r < row && !ignore@.contains(r) && offers(
                            #[trigger] self@.at(Cell { row: r, col }),
                            d,
                        ),
            decreases n - row,
        {
            if !listed(ignore, row) {
                let m: u16 = self.mask(Cell { row, col });
                proof {
                    lemma_ops();
                }
                digits = digits | m;
            }
            row += 1;
        }
        Some(digits)
    }

    /// The union of the masks of the region with the given index, but for the cells in `ignore`.
    pub fn get_box_nums(&self, index: usize, ignore: &[Cell]) -> (m: u16)
        requires
            self@.shaped(),
            index < self@.regions.len(),
        ensures
            forall|d: u16| offers(m, d) == self@.box_offers(index as int, ignore@, d),
    {
        let len: usize = self.regions[index].len();
        let ghost region = self@.regions[index as int];
        let mut digits: u16 = 0;
        let mut j: usize = 0;
        proof {
            lemma_bit();
        }
        while j < len
            invariant
                self@.shaped(),
                index < self.regions.len(),
                region == self@.regions[index as int],
                len == region.len(),
                j <= len,
                forall|d: u16|
                    offers(digits, d) == exists|t: int|
                        0 <= t < j && !ignore@.contains(region[t]) && offers(
                            self@.at(#[trigger] region[t]),
                            d,
                        ),
            decreases len - j,
        {
            let cell: Cell = self.regions[index][j];
            assert(cell == region[j as int]);
            if !listed_cell(ignore, cell) {
                let m: u16 = self.mask(cell);
                proof {
                    lemma_ops();
                }
                digits = digits | m;
            }
            j += 1;
        }
        digits
    }

    /// The union of the masks of the regions that hold `cell`, but for the
    /// cells in `ignore`.
    pub fn get_reg_nums(&self, cell: Cell, ignore: &[Cell]) -> (r: Option<u16>)
        requires
            self@.shaped(),
        ensures
            r matches Some(m) && forall|d: u16| offers(m, d) == self@.reg_offers(cell, ignore@, d),
    {
        let count: usize = self.regions.len();
        let mut digits: u16 = 0;
        let mut i: usize = 0;
        proof {
            lemma_bit();
        }
        while i < count
            invariant
                self@.shaped(),
                count == self@.regions.len(),
                i <= count,
                forall|d: u16|
                    offers(digits, d) == exists|k: int|
                        0 <= k < i && #[trigger] self@.regions[k].contains(cell)
                            && self@.box_offers(k, ignore@, d),
            decreases count - i,
        {
            assert(self.regions[i as int]@ == self@.regions[i as int]);
            if region_holds(&self.regions[i], cell) {
                let m: u16 = self.get_box_nums(i, ignore);
                proof {
                    lemma_ops();
                }
                digits = digits | m;
            }
            i += 1;
        }
        Some(digits)
    }

    /// The digit that the hidden-single rule forces on `cell`, if any.
    pub fn find_hidden_single(&self, cell: Cell) -> (r: Option<u16>)
        requires
            self@.shaped(),
            self@.holds(cell),
        ensures
            r matches Some(d) ==> self@.hidden_single(cell, d),
            r is None ==> self@.no_hidden_single(cell),
    {
        let m: u16 = self.mask(cell);
        if is_single(m) {
            return None;
        }
        proof {
            lemma_ops();
            lemma_bit();
        }
        let cols: [usize; 1] = [cell.col];
        assert(cols@ =~= seq![cell.col]);
        let in_row: u16 = self.get_row_nums(cell.row, &cols).unwrap();
        let free_row: u16 = m & !in_row;
        assert forall|d: u16|
            #![trigger offers(free_row, d)]
            #![trigger self@.hidden_in_row(cell, d)]
            offers(free_row, d) == self@.hidden_in_row(cell, d) by {}
        if free_row != 0 {
            return Some(lowest_digit(free_row));
        }
        let rows: [usize; 1] = [cell.row];
        assert(rows@ =~= seq![cell.row]);
        let in_col: u16 = self.get_col_nums(cell.col, &rows).unwrap();
        let free_col: u16 = m & !in_col;
        assert forall|d: u16|
            #![trigger offers(free_col, d)]
            #![trigger self@.hidden_in_col(cell, d)]
            offers(free_col, d) == self@.hidden_in_col(cell, d) by {}
        if free_col != 0 {
            return Some(lowest_digit(free_col));
        }
        let own: [Cell; 1] = [cell];
        assert(own@ =~= seq![cell]);
        let in_reg: u16 = self.get_reg_nums(cell, &own).unwrap();
        let free_reg: u16 = m & !in_reg;
        assert forall|d: u16|
            #![trigger offers(free_reg, d)]
            #![trigger self@.hidden_in_reg(cell, d)]
            offers(free_reg, d) == self@.hidden_in_reg(cell, d) by {}
        if free_reg != 0 {
            return Some(lowest_digit(free_reg));
        }
        None
    }

    /// Places the digit that the hidden-single rule forces on `cell`, if
    /// there is one, and says whether it did.
    pub fn place_if_hidden_single(&mut self, cell: Cell) -> (res: Result<bool, Contradiction>)
        requires
            old(self).wf(),
            old(self)@.holds(cell),
        ensures
            final(self).wf(),
            final(self)@.refines(old(self)@),
            old(self)@.no_hidden_single(cell) ==>
                res == Ok::<bool, Contradiction>(false) && final(self)@ == old(self)@,
            forall|d: u16| #[trigger]
                old(self)@.hidden_single(cell, d) ==> old(self)@.with_mask(cell, bit(d)).cascades(
                    old(self)@.peer_strikes(cell, d),
                    res is Ok,
                    final(self)@,
                ) && res != Ok::<bool, Contradiction>(false) && final(self)@ != old(self)@,
            res is Ok && old(self)@.consistent() ==> final(self)@.consistent(),
    {
        proof {
            lemma_within();
        }
        match self.find_hidden_single(cell) {
            None => Ok(false),
            Some(d) => {
                proof {
                    assert forall|e: u16|
                        #[trigger] old(self)@.hidden_single(cell, e) implies e == d by {
                        lemma_hidden_single_unique(old(self)@, cell, d, e);
                    }
                    lemma_placing_refines(old(self)@, cell, d);
                }
                let placed = self.place_digit(d, cell);
                proof {
                    lemma_refines_trans(self@, old(self)@.with_mask(cell, bit(d)), old(self)@);
                    lemma_bit();
                    assert(within(self@.at(cell), old(self)@.with_mask(cell, bit(d)).at(cell)));
                    assert(self@.at(cell) == bit(d));
                }
                match placed {
                    Ok(()) => Ok(true),
                    Err(e) => Err(e),
                }
            },
        }
    }

    /// Places the first hidden single in reading order, if there is one, and
    /// says whether it did.
    pub fn place_hidden_single(&mut self) -> (res: Result<bool, Contradiction>)
        requires
            old(self).wf(),
        ensures
            final(self).wf(),
            final(self)@.refines(old(self)@),
            (forall|c: Cell| old(self)@.holds(c) ==> #[trigger] old(self)@.no_hidden_single(c)) ==>
                res
                == Ok::<bool, Contradiction>(false) && final(self)@ == old(self)@,
            forall|c: Cell, d: u16| #[trigger]
                old(self)@.first_hidden_single(c, d) ==> old(self)@.with_mask(c, bit(d)).cascades(
                    old(self)@.peer_strikes(c, d),
                    res is Ok,
                    final(self)@,
                ) && res != Ok::<bool, Contradiction>(false) && final(self)@ != old(self)@,
            res is Ok && old(self)@.consistent() ==> final(self)@.consistent(),
    {
        let n: usize = self.cells.len();
        let mut cell = Cell { row: 0, col: 0 };
        while cell.row < n
            invariant
                self.wf(),
                self@ == old(self)@,
                n == self@.size(),
                cell.row <= n,
                cell.col < n,
                forall|c: Cell|
                    self@.holds(c) && before(c, cell) ==> #[trigger] self@.no_hidden_single(c),
            decreases n - cell.row, n - cell.col,
        {
            let ghost g = self@;
            match self.place_if_hidden_single(cell) {
                Err(e) => {
                    proof {
                        lemma_first_hidden_single_unique(g, cell);
                    }
                    return Err(e);
                },
                Ok(true) => {
                    proof {
                        lemma_first_hidden_single_unique(g, cell);
                    }
                    return Ok(true);
                },
                Ok(false) => {},
            }
            cell = next_cell(cell, n);
        }
        proof {
            lemma_within();
            assert forall|c: Cell| self@.holds(c) implies #[trigger] self@.no_hidden_single(c) by {
                assert(before(c, cell));
            }
            assert forall|c: Cell, d: u16| !#[trigger] self@.first_hidden_single(c, d) by {
                if self@.holds(c) {
                    assert(self@.no_hidden_single(c));
                }
            }
        }
        Ok(false)
    }
}

/// Solving a cell with a digit that it offers adds no candidate.
pub proof fn lemma_placing_refines(g: Grid, cell: Cell, d: u16)
    requires
        g.shaped(),
        g.holds(cell),
        offers(g.at(cell), d),
    ensures
        g.with_mask(cell, bit(d)).refines(g),
{
    lemma_within();
    lemma_bit();
    let g1 = g.with_mask(cell, bit(d));
    assert forall|c: Cell| g.holds(c) implies within(#[trigger] g1.at(c), g.at(c)) by {
        if c != cell {
            assert(g1.at(c) == g.at(c));
        }
    }
}

/// Where a digit is forced on `cell` and on no cell before it, `cell` is the
/// only first hidden single.
pub proof fn lemma_first_hidden_single_unique(g: Grid, cell: Cell)
    requires
        g.holds(cell),
        !g.no_hidden_single(cell),
        forall|c: Cell| g.holds(c) && before(c, cell) ==> #[trigger] g.no_hidden_single(c),
    ensures
        forall|c: Cell, d: u16| #[trigger] g.first_hidden_single(c, d) ==> c == cell,
{
    assert forall|c: Cell, d: u16| #[trigger] g.first_hidden_single(c, d) implies c == cell by {
        if c != cell {
            if before(c, cell) {
                assert(g.no_hidden_single(c));
            } else {
                assert(before(cell, c));
                assert(g.no_hidden_single(cell));
            }
        }
    }
}

} // verus!
