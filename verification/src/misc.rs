//! Units (rows, columns, regions) and the cells of the grid in reading order.

use vstd::prelude::*;
use vstd::arithmetic::div_mod::lemma_fundamental_div_mod_converse;
use crate::board::{Board, Cell};
use crate::grid::Grid;

verus! {

/// A group of cells in which each digit occurs once: a row, a column, or the
/// region with the given index in the board's list.
#[derive(Debug, Clone, Copy, PartialEq, Eq, Structural)]
pub enum Unit {
    Row(usize),
    Col(usize),
    Reg(usize),
}

/// `a` comes before `b` in reading order.
pub open spec fn before(a: Cell, b: Cell) -> bool {
    a.row < b.row || (a.row == b.row && a.col < b.col)
}

/// The cells of a grid of side `n` in reading order.
pub open spec fn all_cells(n: int) -> Seq<Cell> {
    Seq::new((n * n) as nat, |i: int| Cell { row: (i / n) as usize, col: (i % n) as usize })
}

impl Grid {
    /// The unit lies on the grid.
    pub open spec fn valid_unit(self, u: Unit) -> bool {
        match u {
            Unit::Row(r) => r < self.size(),
            Unit::Col(c) => c < self.size(),
            Unit::Reg(i) => i < self.regions.len(),
        }
    }

    /// The cells of a unit: a row from left to right, a column from top to
    /// bottom, a region as it is listed.
    pub open spec fn unit_cells(self, u: Unit) -> Seq<Cell> {
        match u {
            Unit::Row(r) => Seq::new(self.size() as nat, |c: int| Cell { row: r, col: c as usize }),
            Unit::Col(c) => Seq::new(self.size() as nat, |r: int| Cell { row: r as usize, col: c }),
            Unit::Reg(i) => self.regions[i as int],
        }
    }

    /// All units: the regions, then the rows, then the columns.
    pub open spec fn all_units(self) -> Seq<Unit> {
        Seq::new(
            (self.regions.len() + 2 * self.size()) as nat,
            |k: int|
                if k < self.regions.len() {
                    Unit::Reg(k as usize)
                } else if k < self.regions.len() + self.size() {
                    Unit::Row((k - self.regions.len()) as usize)
                } else {
                    Unit::Col((k - self.regions.len() - self.size()) as usize)
                },
        )
    }
}

/// Every unit of the grid is in the list of its units.
pub proof fn lemma_unit_listed(g: Grid, u: Unit) -> (k: int)
    requires
        g.valid_unit(u),
    ensures
        0 <= k < g.all_units().len(),
        g.all_units()[k] == u,
{
    match u {
        Unit::Reg(i) => i as int,
        Unit::Row(r) => g.regions.len() + r,
        Unit::Col(c) => g.regions.len() + g.size() + c,
    }
}

/// The cells of a unit lie on the grid.
pub proof fn lemma_unit_on_grid(g: Grid, u: Unit, t: int)
    requires
        g.shaped(),
        g.valid_unit(u),
        0 <= t < g.unit_cells(u).len(),
    ensures
        g.holds(g.unit_cells(u)[t]),
{
}

/// The cell after `c` in reading order on a grid of side `n`; past the last
/// cell it is the first of row `n`.
pub fn next_cell(c: Cell, n: usize) -> (r: Cell)
    requires
        c.row < n,
        c.col < n,
    ensures
        r.row <= n,
        r.col < n,
        before(c, r),
        forall|k: Cell| k.col < n ==> (before(k, r) <==> before(k, c) || k == c),
        r == (if c.col + 1 < n {
            Cell { row: c.row, col: (c.col + 1) as usize }
        } else {
            Cell { row: (c.row + 1) as usize, col: 0 }
        }),
{
    if c.col + 1 < n {
        Cell { row: c.row, col: c.col + 1 }
    } else {
        Cell { row: c.row + 1, col: 0 }
    }
}

/// All units of the board: the regions, then the rows, then the columns.
pub fn units(board: &Board) -> (r: Vec<Unit>)
    requires
        board@.shaped(),
    ensures
        r@ == board@.all_units(),
        forall|k: int| 0 <= k < r.len() ==> board@.valid_unit(#[trigger] r[k]),
{
    let n: usize = board.cells.len();
    let m: usize = board.regions.len();
    let mut out: Vec<Unit> = Vec::new();
    let mut i: usize = 0;
    while i < m
        invariant
            i <= m,
            m == board@.regions.len(),
            out.len() == i,
            forall|k: int| 0 <= k < i ==> #[trigger] out[k] == board@.all_units()[k],
        decreases m - i,
    {
        out.push(Unit::Reg(i));
        i += 1;
    }
    let mut r: usize = 0;
    while r < n
        invariant
            r <= n,
            n == board@.size(),
            n <= 15,
            m == board@.regions.len(),
            out.len() == m + r,
            forall|k: int| 0 <= k < out.len() ==> #[trigger] out[k] == board@.all_units()[k],
        decreases n - r,
    {
        out.push(Unit::Row(r));
        r += 1;
    }
    let mut c: usize = 0;
    while c < n
        invariant
            c <= n,
            n == board@.size(),
            n <= 15,
            m == board@.regions.len(),
            out.len() == m + n + c,
            forall|k: int| 0 <= k < out.len() ==> #[trigger] out[k] == board@.all_units()[k],
        decreases n - c,
    {
        out.push(Unit::Col(c));
        c += 1;
    }
    assert(out@ =~= board@.all_units());
    out
}

/// The cells of a grid of side `size` in reading order.
pub fn cells(size: usize) -> (r: Vec<Cell>)
    requires
        size <= 15,
    ensures
        r@ == all_cells(size as int),
        r@.len() == size * size,
        forall|c: Cell| c.row < size && c.col < size ==> r@.contains(c),
        forall|i: int| 0 <= i < r.len() ==> (#[trigger] r[i]).row < size && r[i].col < size,
        forall|i: int, j: int| 0 <= i < j < r.len() ==> before(#[trigger] r[i], #[trigger] r[j]),
{
    let mut out: Vec<Cell> = Vec::new();
    let mut row: usize = 0;
    while row < size
        invariant
            row <= size,
            size <= 15,
            out.len() == row * size,
            forall|i: int| 0 <= i < out.len() ==> #[trigger] out[i] == all_cells(size as int)[i],
            forall|i: int|
                0 <= i < out.len() ==> (#[trigger] out[i]).row < row && out[i].col < size,
            forall|c: Cell| c.row < row && c.col < size ==> out@.contains(c),
            forall|i: int, j: int|
                0 <= i < j < out.len() ==> before(#[trigger] out[i], #[trigger] out[j]),
        decreases size - row,
    {
        let mut col: usize = 0;
        while col < size
            invariant
                row < size,
                col <= size,
                size <= 15,
                out.len() == row * size + col,
                forall|i: int|
                    0 <= i < out.len() ==> #[trigger] out[i] == all_cells(size as int)[i],
                forall|i: int|
                    0 <= i < out.len() ==> ((#[trigger] out[i]).row < row || (out[i].row == row
                        && out[i].col < col)) && out[i].col < size,
                forall|c: Cell|
                    (c.row < row || (c.row == row && c.col < col)) && c.col < size ==>
                        out@.contains(
                        c,
                    ),
                forall|i: int, j: int|
                    0 <= i < j < out.len() ==> before(#[trigger] out[i], #[trigger] out[j]),
            decreases size - col,
        {
            proof {
                lemma_fundamental_div_mod_converse(
                    row * size + col, size as int, row as int, col as int
                );
                assert(row * size + col < size * size) by (nonlinear_arith)
                    requires
                        row < size,
                        col < size,
                ;
            }
            let ghost prev = out@;
            out.push(Cell { row, col });
            proof {
                assert forall|c: Cell|
                    (c.row < row || (c.row == row && c.col < col + 1)) && c.col < size implies
                        out@.contains(
                    c,
                ) by {
                    if c.row == row && c.col == col {
                        assert(out@[out.len() - 1] == c);
                    } else {
                        assert(prev.contains(c));
                        let i = choose|i: int| 0 <= i < prev.len() && prev[i] == c;
                        assert(out@[i] == c);
                    }
                }
            }
            col += 1;
        }
        assert((row + 1) * size == row * size + size) by (nonlinear_arith);
        row += 1;
    }
    assert(out@ =~= all_cells(size as int));
    out
}

/// The cells of a unit of the board.
pub fn unit_cells(board: &Board, unit: Unit) -> (r: Vec<Cell>)
    requires
        board@.shaped(),
        board@.valid_unit(unit),
    ensures
        r@ == board@.unit_cells(unit),
        forall|i: int| 0 <= i < r.len() ==> board@.holds(#[trigger] r[i]),
{
    let n: usize = board.cells.len();
    let mut out: Vec<Cell> = Vec::new();
    match unit {
        Unit::Row(row) => {
            let mut col: usize = 0;
            while col < n
                invariant
                    col <= n,
                    n == board@.size(),
                    row < n,
                    out.len() == col,
                    forall|i: int|
                        0 <= i < col ==> #[trigger] out[i] == (Cell { row, col: i as usize }),
                decreases n - col,
            {
                out.push(Cell { row, col });
                col += 1;
            }
            assert(out@ =~= board@.unit_cells(unit));
        },
        Unit::Col(col) => {
            let mut row: usize = 0;
            while row < n
                invariant
                    row <= n,
                    n == board@.size(),
                    col < n,
                    out.len() == row,
                    forall|i: int|
                        0 <= i < row ==> #[trigger] out[i] == (Cell { row: i as usize, col }),
                decreases n - row,
            {
                out.push(Cell { row, col });
                row += 1;
            }
            assert(out@ =~= board@.unit_cells(unit));
        },
        Unit::Reg(index) => {
            let len: usize = board.regions[index].len();
            let mut j: usize = 0;
            while j < len
                invariant
                    j <= len,
                    index < board.regions.len(),
                    len == board.regions[index as int].len(),
                    out.len() == j,
                    forall|i: int|
                        0 <= i < j ==> #[trigger] out[i] == board.regions[index as int][i],
                decreases len - j,
            {
                out.push(board.regions[index][j]);
                j += 1;
            }
            assert(out@ =~= board@.unit_cells(unit));
            assert forall|i: int| 0 <= i < out.len() implies board@.holds(#[trigger] out[i]) by {
                assert(out[i] == board@.regions[index as int][i]);
            }
        },
    }
    out
}

} // verus!
