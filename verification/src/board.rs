//! The board: a square grid of candidate masks with its regions, and the two
//! primitives that change it, placement and elimination, with their cascade.

use vstd::prelude::*;
use crate::bits::{
    bit, bit_of, clear, cleared, is_set, is_single, lemma_bit, lemma_clear, lemma_within,
    lowest_digit, offers, single, within,
};
use crate::defaults::{
    boxes, default_cell, default_regions, lemma_boxes_on_grid, region_bounds, regions_view,
};
use crate::grid::{
    col_strikes, fresh, lemma_admits_consistent, lemma_admits_self, lemma_cascades_failed,
    lemma_cascades_same, lemma_cascades_then, lemma_place_blocked, lemma_place_consistent,
    lemma_place_quiet, lemma_refines_equal,
    lemma_strike_blocked, lemma_strike_cascade, lemma_strike_open, lemma_weight_place,
    lemma_weight_refines, lemma_weight_strike, row_strikes, Grid, Strike,
};

verus! {

/// A coordinate on the grid.
#[derive(Debug, Clone, Copy, PartialEq, Eq, Structural, PartialOrd, Ord, Hash)]
pub struct Cell {
    pub row: usize,
    pub col: usize,
}

/// One box of the grid.
pub type Region = Vec<Cell>;

/// A cell would be left without a candidate.
#[derive(Debug, Clone, Copy, PartialEq, Eq, Structural)]
pub struct Contradiction;

/// The grid of candidate masks, one `Vec` per row, and the regions.
#[derive(Debug, Clone)]
pub struct Board {
    pub regions: Vec<Region>,
    pub cells: Vec<Vec<u16>>,
}

impl View for Board {
    type V = Grid;

    open spec fn view(&self) -> Grid {
        Grid {
            masks: Seq::new(self.cells.len() as nat, |r: int| self.cells[r]@),
            regions: Seq::new(self.regions.len() as nat, |i: int| self.regions[i]@),
        }
    }
}

/// Whether `i` is one of `list`.
pub fn listed(list: &[usize], i: usize) -> (r: bool)
    ensures
        r == list@.contains(i),
{
    let mut k: usize = 0;
    while k < list.len()
        invariant
            k <= list.len(),
            forall|j: int| 0 <= j < k ==> list@[j] != i,
        decreases list.len() - k,
    {
        if list[k] == i {
            return true;
        }
        k += 1;
    }
    false
}

/// Whether `cell` is one of `list`.
pub fn listed_cell(list: &[Cell], cell: Cell) -> (r: bool)
    ensures
        r == list@.contains(cell),
{
    let mut k: usize = 0;
    while k < list.len()
        invariant
            k <= list.len(),
            forall|j: int| 0 <= j < k ==> list@[j] != cell,
        decreases list.len() - k,
    {
        if list[k] == cell {
            return true;
        }
        k += 1;
    }
    false
}

/// Whether a region holds the cell.
pub fn region_holds(region: &Region, cell: Cell) -> (r: bool)
    ensures
        r == region@.contains(cell),
{
    listed_cell(region.as_slice(), cell)
}

impl Cell {
    /// Whether the two cells share a row, a column or a region.
    pub fn can_see(&self, board: &Board, target: &Cell) -> (r: bool)
        ensures
            r == board@.sees(*self, *target),
    {
        if self.row == target.row || self.col == target.col {
            return true;
        }
        let mut i: usize = 0;
        while i < board.regions.len()
            invariant
                i <= board.regions.len(),
                forall|k: int|
                    0 <= k < i ==> !(#[trigger] board@.regions[k].contains(*self)
                        && board@.regions[k].contains(*target)),
            decreases board.regions.len() - i,
        {
            assert(board@.regions[i as int] == board.regions[i as int]@);
            if region_holds(&board.regions[i], *self) && region_holds(&board.regions[i], *target) {
                return true;
            }
            i += 1;
        }
        false
    }
}

impl Board {
    /// The board's invariant: that of its grid.
    pub open spec fn wf(&self) -> bool {
        self@.wf()
    }

    /// The side length.
    pub fn size(&self) -> (n: usize)
        ensures
            n == self@.size(),
    {
        self.cells.len()
    }

    /// The board of the given size with the default boxes, every digit
    /// still possible everywhere.
    pub fn new(size: usize) -> (board: Board)
        requires
            size == 4 || size == 6 || size == 9,
        ensures
            board.wf(),
            board@ == fresh(
                size as int,
                boxes(region_bounds(size as int).0 as int, region_bounds(size as int).1 as int),
            ),
            board@.consistent(),
    {
        let regions = default_regions(size);
        proof {
            let b = boxes(region_bounds(size as int).0 as int, region_bounds(size as int).1 as int);
            lemma_boxes_on_grid(
                region_bounds(size as int).0 as int,
                region_bounds(size as int).1 as int,
            );
            assert forall|i: int, j: int|
                0 <= i < regions.len() && 0 <= j < regions[i].len() implies (
            #[trigger] regions[i][j]).row < size && regions[i][j].col < size by {
                assert(regions[i]@ == regions_view(regions)[i]);
                assert(regions[i][j] == b[i][j]);
            }
        }
        let board = Board::new_custom_regions(size, regions);
        assert(board@.regions =~= regions_view(regions));
        board
    }

    /// The board of the given size with the given regions, every digit still
    /// possible everywhere.
    pub fn new_custom_regions(size: usize, regions: Vec<Region>) -> (board: Board)
        requires
            1 <= size <= 15,
            forall|i: int, j: int|
                0 <= i < regions.len() && 0 <= j < regions[i].len() ==> (
                #[trigger] regions[i][j]).row < size && regions[i][j].col < size,
        ensures
            board.wf(),
            board@ == fresh(size as int, regions_view(regions)),
            board@.consistent(),
    {
        let full: u16 = default_cell(size);
        let mut cells: Vec<Vec<u16>> = Vec::new();
        let mut r: usize = 0;
        while r < size
            invariant
                r <= size,
                cells.len() == r,
                forall|i: int|
                    0 <= i < r ==> (#[trigger] cells[i])@ == Seq::new(size as nat, |c: int| full),
            decreases size - r,
        {
            let mut row: Vec<u16> = Vec::new();
            let mut c: usize = 0;
            while c < size
                invariant
                    c <= size,
                    row.len() == c,
                    forall|k: int| 0 <= k < c ==> #[trigger] row[k] == full,
                decreases size - c,
            {
                row.push(full);
                c += 1;
            }
            assert(row@ =~= Seq::new(size as nat, |c: int| full));
            cells.push(row);
            r += 1;
        }
        let board = Board { regions, cells };
        proof {
            let g = fresh(size as int, regions_view(regions));
            assert(board@.masks =~= g.masks);
            assert(board@.regions =~= g.regions);
            assert forall|i: int, j: int|
                0 <= i < g.regions.len() && 0 <= j < g.regions[i].len() implies g.holds(
                #[trigger] g.regions[i][j],
            ) by {
                assert(g.regions[i][j] == regions[i][j]);
            }
            assert forall|c: Cell| g.holds(c) implies #[trigger] g.at(c) == full by {}
            lemma_bit();
            if size != 1 {
                assert(offers(full, 1) && offers(full, 2));
            }
            assert forall|c: Cell| g.holds(c) implies #[trigger] g.settled(c) by {
                assert(g.at(c) == full);
                if single(full) {
                    assert(offers(full, 1));
                    assert forall|p: Cell|
                        g.holds(p) && p != c && #[trigger] g.sees(c, p) implies
                            crate::bits::disjoint(
                        g.at(p),
                        g.at(c),
                    ) by {
                        assert(g.at(p) == full);
                    }
                }
            }
        }
        board
    }

    /// The mask at the given coordinates, if they lie on the board.
    pub fn get_cell_coords(&self, row: usize, col: usize) -> (r: Option<u16>)
        requires
            self@.shaped(),
        ensures
            r == (if self@.holds(Cell { row, col }) {
                Some(self@.at(Cell { row, col }))
            } else {
                None
            }),
    {
        if row < self.cells.len() && col < self.cells.len() {
            assert(self@.masks[row as int].len() == self@.size());
            Some(self.cells[row][col])
        } else {
            None
        }
    }

    /// The mask at the given coordinates, to read and to change, if they lie
    /// on the board. What is written there is not checked: the board is
    /// well-formed afterwards only if the mask is not empty.
    pub fn get_mut_cell_coords(&mut self, row: usize, col: usize) -> (r: Option<&mut u16>)
        requires
            old(self)@.shaped(),
        ensures
            (r is Some) == old(self)@.holds(Cell { row, col }),
            r matches Some(m) ==> *m == old(self)@.at(Cell { row, col }) && final(self)@.masks
                =~~= old(self)@.with_mask(Cell { row, col }, *final(m)).masks,
            final(self)@.regions == old(self)@.regions,
            r is None ==> final(self)@ == old(self)@,
    {
        if row < self.cells.len() && col < self.cells.len() {
            assert(self@.masks[row as int].len() == self@.size());
            Some(&mut self.cells[row][col])
        } else {
            None
        }
    }

    /// The mask of the given cell, if it lies on the board.
    pub fn get_cell(&self, cell: &Cell) -> (r: Option<u16>)
        requires
            self@.shaped(),
        ensures
            r == (if self@.holds(*cell) {
                Some(self@.at(*cell))
            } else {
                None
            }),
    {
        self.get_cell_coords(cell.row, cell.col)
    }

    /// The mask of a cell that lies on the board.
    pub fn mask(&self, cell: Cell) -> (m: u16)
        requires
            self@.shaped(),
            self@.holds(cell),
        ensures
            m == self@.at(cell),
    {
        assert(self@.masks[cell.row as int].len() == self@.size());
        self.cells[cell.row][cell.col]
    }

    /// Whether every cell is down to one candidate.
    pub fn is_solved(&self) -> (r: bool)
        requires
            self@.shaped(),
        ensures
            r == self@.solved(),
    {
        let n: usize = self.cells.len();
        let mut row: usize = 0;
        while row < n
            invariant
                self@.shaped(),
                n == self@.size(),
                row <= n,
                forall|c: Cell| c.row < row && c.col < n ==> single(#[trigger] self@.at(c)),
            decreases n - row,
        {
            let mut col: usize = 0;
            while col < n
                invariant
                    self@.shaped(),
                    n == self@.size(),
                    row < n,
                    col <= n,
                    forall|c: Cell| c.row < row && c.col < n ==> single(#[trigger] self@.at(c)),
                    forall|c: Cell| c.row == row && c.col < col ==> single(#[trigger] self@.at(c)),
                decreases n - col,
            {
                if !is_single(self.mask(Cell { row, col })) {
                    return false;
                }
                col += 1;
            }
            row += 1;
        }
        true
    }

    fn set_mask(&mut self, cell: Cell, m: u16)
        requires
            old(self)@.shaped(),
            old(self)@.holds(cell),
        ensures
            final(self)@ == old(self)@.with_mask(cell, m),
            final(self)@.shaped(),
            final(self)@.at(cell) == m,
            forall|c: Cell|
                c != cell && old(self)@.holds(c) ==>
                    #[trigger] final(self)@.at(c) == old(self)@.at(c),
    {
        assert(self@.masks[cell.row as int].len() == self@.size());
        self.cells[cell.row][cell.col] = m;
        proof {
            let g = old(self)@.with_mask(cell, m);
            assert forall|r: int|
                0 <= r < self@.masks.len() implies #[trigger] self@.masks[r] =~= g.masks[r] by {
            }
            assert(self@.masks =~= g.masks);
            assert(self@.regions =~= g.regions);
            assert forall|c: Cell|
                c != cell && old(self)@.holds(c) implies
                #[trigger] self@.at(c) == old(self)@.at(c) by {
            }
        }
    }

    /// Removes `val` from the candidates of `cell`. A cell that is left with
    /// one candidate is solved, and its digit is then removed from its peers,
    /// and so on. Fails when some cell would lose its only candidate.
    pub fn clean_cell(&mut self, cell: Cell, val: u16) -> (res: Result<bool, Contradiction>)
        requires
            old(self).wf(),
            old(self)@.holds(cell),
            val < 16,
        ensures
            final(self).wf(),
            old(self)@.cascades(set![(cell, val)], res is Ok, final(self)@),
            res matches Ok(changed) ==> changed == offers(old(self)@.at(cell), val) && changed == (
            final(self)@ != old(self)@),
            res is Ok ==> !offers(final(self)@.at(cell), val),
            old(self)@.at(cell) == bit(val) ==> res is Err && final(self)@ == old(self)@,
            !offers(old(self)@.at(cell), val) ==> res == Ok::<bool, Contradiction>(false),
            offers(old(self)@.at(cell), val) && old(self)@.at(cell) != bit(val) && !single(
                clear(old(self)@.at(cell), val),
            ) ==> res == Ok::<bool, Contradiction>(true) && final(self)@ == old(self)@.with_mask(
                cell,
                clear(old(self)@.at(cell), val),
            ),
            res is Ok && old(self)@.consistent() ==> final(self)@.consistent(),
        decreases old(self)@.weight(), 0nat,
    {
        proof {
            assert(set![(cell, val)].contains((cell, val)));
            if old(self)@.consistent() {
                assert forall|x: Grid|
                    old(self)@.admits(set![(cell, val)], x) implies x.consistent() by {
                    lemma_admits_consistent(old(self)@, set![(cell, val)], x);
                }
            }
        }
        assert(self@.masks[cell.row as int].len() == self@.size());
        let m: u16 = self.cells[cell.row][cell.col];
        assert(m == self@.at(cell));
        let b: u16 = bit_of(val);
        if m == b {
            proof {
                lemma_bit();
                lemma_strike_blocked(self@, cell, val);
            }
            return Err(Contradiction);
        }
        if !is_set(m, val) {
            proof {
                assert forall|c: Cell, v: u16| #[trigger]
                    set![(cell, val)].contains((c, v)) && self@.holds(c) implies !offers(
                    self@.at(c),
                    v,
                ) by {}
                lemma_admits_self(self@, set![(cell, val)]);
            }
            return Ok(false);
        }
        let m2: u16 = cleared(m, val);
        self.set_mask(cell, m2);
        proof {
            lemma_clear();
            lemma_bit();
            lemma_strike_open(old(self)@, cell, val);
            lemma_weight_strike(old(self)@, cell, val);
            assert(self@.at(cell) != old(self)@.at(cell));
        }
        if is_single(m2) {
            let w: u16 = lowest_digit(m2);
            proof {
                assert(m2 == bit(w));
                assert(self@.with_mask(cell, bit(w)).masks =~~= self@.masks);
                assert(self@.with_mask(cell, bit(w)) == self@);
            }
            let ghost mid = self@;
            let placed = self.place_digit(w, cell);
            proof {
                lemma_strike_cascade(old(self)@, cell, val, w, placed is Ok, self@);
                lemma_within();
                assert(within(self@.at(cell), mid.at(cell)));
                assert(within(mid.at(cell), old(self)@.at(cell)));
                if self@ == old(self)@ {
                    assert(within(old(self)@.at(cell), mid.at(cell)));
                }
            }
            match placed {
                Err(e) => {
                    return Err(e);
                },
                Ok(()) => {},
            }
        }
        Ok(true)
    }

    /// Solves `cell` with the digit `val`, and removes `val` from the
    /// candidates of every cell in its column, its row and its regions.
    pub fn place_digit(&mut self, val: u16, cell: Cell) -> (res: Result<(), Contradiction>)
        requires
            old(self).wf(),
            old(self)@.holds(cell),
            val < 16,
        ensures
            final(self).wf(),
            old(self)@.with_mask(cell, bit(val)).cascades(
                old(self)@.peer_strikes(cell, val),
                res is Ok,
                final(self)@,
            ),
            res is Ok ==> final(self)@.at(cell) == bit(val),
            res is Ok ==> forall|p: Cell|
                old(self)@.holds(p) && p != cell && #[trigger] old(self)@.sees(cell, p) ==> !offers(
                    final(self)@.at(p),
                    val,
                ),
            res is Ok && old(self)@.consistent() ==> final(self)@.consistent(),
            forall|s: Grid|
                #[trigger] s.solution_of(old(self)@) && s.at(cell) == bit(val) ==> res is Ok
                    && s.solution_of(final(self)@),
            forall|p: Cell|
                old(self)@.holds(p) && p != cell && #[trigger] old(self)@.sees(cell, p) && old(
                    self,
                )@.at(p) == bit(val) ==> res is Err,
            old(self)@.quiet(cell, val) ==> res is Ok && final(self)@ == old(self)@.placed(cell, val),
        decreases old(self)@.weight(), 3nat,
    {
        proof {
            assert forall|p: Cell|
                old(self)@.holds(p) && p != cell && #[trigger] old(self)@.sees(cell, p) && old(
                    self,
                )@.at(p) == bit(val) implies forall|x: Grid|
                !#[trigger] old(self)@.with_mask(cell, bit(val)).admits(
                    old(self)@.peer_strikes(cell, val),
                    x,
                ) by {
                lemma_place_blocked(old(self)@, cell, val, p);
            }
            if old(self)@.quiet(cell, val) {
                lemma_place_quiet(old(self)@, cell, val);
                assert forall|ok: bool, out: Grid| #[trigger]
                    old(self)@.with_mask(cell, bit(val)).cascades(
                        old(self)@.peer_strikes(cell, val),
                        ok,
                        out,
                    ) implies ok && out == old(self)@.placed(cell, val) by {
                    crate::grid::lemma_cascades_unique(
                        old(self)@.with_mask(cell, bit(val)),
                        old(self)@.peer_strikes(cell, val),
                        ok,
                        out,
                        true,
                        old(self)@.placed(cell, val),
                    );
                }
            }
            assert forall|s: Grid, ok: bool, out: Grid|
                #[trigger] s.solution_of(old(self)@) && s.at(cell) == bit(val) && #[trigger] old(
                    self,
                )@.with_mask(cell, bit(val)).cascades(
                    old(self)@.peer_strikes(cell, val),
                    ok,
                    out,
                ) implies ok && s.solution_of(out) by {
                crate::sound::lemma_place_sound(old(self)@, cell, val, ok, out, s);
            }
        }
        let b: u16 = bit_of(val);
        self.set_mask(cell, b);
        let ghost b1 = self@;
        let ghost peers = old(self)@.peer_strikes(cell, val);
        proof {
            lemma_weight_place(old(self)@, cell, val);
            assert(b1.wf());
            assert(b1.regions == old(self)@.regions);
            assert forall|e: Strike| peers.contains(e) == b1.peer_strikes(cell, val).contains(e) by {
                assert(old(self)@.share_region(cell, e.0) == b1.share_region(cell, e.0));
            }
            assert(peers =~= b1.peer_strikes(cell, val));
        }
        let rows: [usize; 1] = [cell.row];
        let ghost s1 = col_strikes(cell.col, rows@, val);
        let r1 = self.clean_col(cell.col, &rows, val);
        let ghost b2 = self@;
        if r1.is_err() {
            proof {
                assert(s1.subset_of(peers));
                lemma_cascades_failed(b1, s1, peers, b2);
            }
            return Err(Contradiction);
        }
        proof {
            lemma_weight_refines(b2, b1);
        }
        let cols: [usize; 1] = [cell.col];
        let ghost s2 = row_strikes(cell.row, cols@, val);
        let r2 = self.clean_row(cell.row, &cols, val);
        let ghost b3 = self@;
        proof {
            lemma_cascades_then(b1, s1, b2, s2, r2 is Ok, b3);
        }
        if r2.is_err() {
            proof {
                assert((s1 + s2).subset_of(peers));
                lemma_cascades_failed(b1, s1 + s2, peers, b3);
            }
            return Err(Contradiction);
        }
        proof {
            lemma_weight_refines(b3, b1);
        }
        let own: [Cell; 1] = [cell];
        let ghost s3 = b3.region_strikes(cell, own@, val);
        let r3 = self.clean_reg(cell, &own, val);
        proof {
            lemma_cascades_then(b1, s1 + s2, b3, s3, r3 is Ok, self@);
            assert(s1 + s2 + s3 =~= peers);
        }
        if r3.is_err() {
            return Err(Contradiction);
        }
        proof {
            lemma_bit();
            lemma_within();
            assert(b1.at(cell) == bit(val));
            assert(within(self@.at(cell), b1.at(cell)));
            if old(self)@.consistent() {
                lemma_place_consistent(old(self)@, cell, val, self@);
            }
            assert forall|p: Cell|
                old(self)@.holds(p) && p != cell && #[trigger] old(self)@.sees(cell, p) implies
                    !offers(
                self@.at(p),
                val,
            ) by {
                assert(peers.contains((p, val)));
            }
        }
        Ok(())
    }

    /// Removes `val` from every cell of `row` but those in the columns `ignore`.
    pub fn clean_row(&mut self, row: usize, ignore: &[usize], val: u16) -> (res: Result<
        bool,
        Contradiction,
    >)
        requires
            old(self).wf(),
            row < old(self)@.size(),
            val < 16,
        ensures
            final(self).wf(),
            old(self)@.cascades(row_strikes(row, ignore@, val), res is Ok, final(self)@),
            res matches Ok(changed) ==> changed == (final(self)@ != old(self)@),
            res is Ok && old(self)@.consistent() ==> final(self)@.consistent(),
        decreases old(self)@.weight(), 2nat,
    {
        let n: usize = self.cells.len();
        let mut changed = false;
        let mut i: usize = 0;
        let ghost all = row_strikes(row, ignore@, val);
        proof {
            lemma_admits_self(self@, Set::<Strike>::empty());
        }
        while i < n
            invariant
                self.wf(),
                old(self).wf(),
                self@.size() == n,
                row < n,
                val < 16,
                i <= n,
                all == row_strikes(row, ignore@, val),
                old(self)@.cascades(all.filter(|e: Strike| e.0.col < i), true, self@),
                changed == (self@ != old(self)@),
            decreases n - i,
        {
            let ghost before = self@;
            let ghost done = all.filter(|e: Strike| e.0.col < i);
            let cell = Cell { row, col: i };
            let ghost step: Set<Strike> = if ignore@.contains(i) {
                Set::empty()
            } else {
                set![(cell, val)]
            };
            let mut ok = true;
            if !listed(ignore, i) {
                proof {
                    lemma_weight_refines(before, old(self)@);
                }
                match self.clean_cell(cell, val) {
                    Err(e) => {
                        ok = false;
                    },
                    Ok(ch) => {
                        changed = changed || ch;
                    },
                }
            } else {
                proof {
                    lemma_admits_self(before, step);
                }
            }
            proof {
                lemma_cascades_then(old(self)@, done, before, step, ok, self@);
                assert(done + step =~= all.filter(|e: Strike| e.0.col < i + 1));
                if self@ == old(self)@ {
                    lemma_refines_equal(before, self@);
                }
            }
            if !ok {
                proof {
                    lemma_cascades_failed(old(self)@, done + step, all, self@);
                }
                return Err(Contradiction);
            }
            i += 1;
        }
        proof {
            lemma_cascades_same(old(self)@, all.filter(|e: Strike| e.0.col < i), all, true, self@);
        }
        proof {
            if old(self)@.consistent() {
                lemma_admits_consistent(old(self)@, all, self@);
            }
        }
        Ok(changed)
    }

    /// Removes `val` from every cell of `col` but those in the rows `ignore`.
    pub fn clean_col(&mut self, col: usize, ignore: &[usize], val: u16) -> (res: Result<
        bool,
        Contradiction,
    >)
        requires
            old(self).wf(),
            col < old(self)@.size(),
            val < 16,
        ensures
            final(self).wf(),
            old(self)@.cascades(col_strikes(col, ignore@, val), res is Ok, final(self)@),
            res matches Ok(changed) ==> changed == (final(self)@ != old(self)@),
            res is Ok && old(self)@.consistent() ==> final(self)@.consistent(),
        decreases old(self)@.weight(), 2nat,
    {
        let n: usize = self.cells.len();
        let mut changed = false;
        let mut i: usize = 0;
        let ghost all = col_strikes(col, ignore@, val);
        proof {
            lemma_admits_self(self@, Set::<Strike>::empty());
        }
        while i < n
            invariant
                self.wf(),
                old(self).wf(),
                self@.size() == n,
                col < n,
                val < 16,
                i <= n,
                all == col_strikes(col, ignore@, val),
                old(self)@.cascades(all.filter(|e: Strike| e.0.row < i), true, self@),
                changed == (self@ != old(self)@),
            decreases n - i,
        {
            let ghost before = self@;
            let ghost done = all.filter(|e: Strike| e.0.row < i);
            let cell = Cell { row: i, col };
            let ghost step: Set<Strike> = if ignore@.contains(i) {
                Set::empty()
            } else {
                set![(cell, val)]
            };
            let mut ok = true;
            if !listed(ignore, i) {
                proof {
                    lemma_weight_refines(before, old(self)@);
                }
                match self.clean_cell(cell, val) {
                    Err(e) => {
                        ok = false;
                    },
                    Ok(ch) => {
                        changed = changed || ch;
                    },
                }
            } else {
                proof {
                    lemma_admits_self(before, step);
                }
            }
            proof {
                lemma_cascades_then(old(self)@, done, before, step, ok, self@);
                assert(done + step =~= all.filter(|e: Strike| e.0.row < i + 1));
                if self@ == old(self)@ {
                    lemma_refines_equal(before, self@);
                }
            }
            if !ok {
                proof {
                    lemma_cascades_failed(old(self)@, done + step, all, self@);
                }
                return Err(Contradiction);
            }
            i += 1;
        }
        proof {
            lemma_cascades_same(old(self)@, all.filter(|e: Strike| e.0.row < i), all, true, self@);
        }
        proof {
            if old(self)@.consistent() {
                lemma_admits_consistent(old(self)@, all, self@);
            }
        }
        Ok(changed)
    }

    /// Removes `val` from every cell of the region with the given index, but
    /// for the cells in `ignore`.
    pub fn clean_region(&mut self, index: usize, ignore: &[Cell], val: u16) -> (res: Result<
        bool,
        Contradiction,
    >)
        requires
            old(self).wf(),
            index < old(self)@.regions.len(),
            val < 16,
        ensures
            final(self).wf(),
            old(self)@.cascades(
                old(self)@.box_strikes(index as int, ignore@, val),
                res is Ok,
                final(self)@,
            ),
            res matches Ok(changed) ==> changed == (final(self)@ != old(self)@),
            res is Ok && old(self)@.consistent() ==> final(self)@.consistent(),
        decreases old(self)@.weight(), 1nat,
    {
        let len: usize = self.regions[index].len();
        let mut changed = false;
        let mut j: usize = 0;
        let ghost region = self@.regions[index as int];
        let ghost all = old(self)@.box_strikes(index as int, ignore@, val);
        proof {
            lemma_admits_self(self@, Set::<Strike>::empty());
        }
        while j < len
            invariant
                self.wf(),
                old(self).wf(),
                index < self.regions.len(),
                self@.regions == old(self)@.regions,
                region == self@.regions[index as int],
                len == region.len(),
                val < 16,
                j <= len,
                all == old(self)@.box_strikes(index as int, ignore@, val),
                old(self)@.cascades(
                    all.filter(|e: Strike| exists|t: int| 0 <= t < j && region[t] == e.0),
                    true,
                    self@,
                ),
                changed == (self@ != old(self)@),
            decreases len - j,
        {
            let ghost before = self@;
            let ghost done = all.filter(|e: Strike| exists|t: int| 0 <= t < j && region[t] == e.0);
            let cell: Cell = self.regions[index][j];
            assert(cell == region[j as int]);
            let ghost step: Set<Strike> = if ignore@.contains(cell) {
                Set::empty()
            } else {
                set![(cell, val)]
            };
            let mut ok = true;
            if !listed_cell(ignore, cell) {
                proof {
                    lemma_weight_refines(before, old(self)@);
                }
                match self.clean_cell(cell, val) {
                    Err(e) => {
                        ok = false;
                    },
                    Ok(ch) => {
                        changed = changed || ch;
                    },
                }
            } else {
                proof {
                    lemma_admits_self(before, step);
                }
            }
            proof {
                lemma_cascades_then(old(self)@, done, before, step, ok, self@);
                assert(region.contains(cell));
                assert(done + step =~= all.filter(
                    |e: Strike| exists|t: int| 0 <= t < j + 1 && region[t] == e.0,
                ));
                if self@ == old(self)@ {
                    lemma_refines_equal(before, self@);
                }
            }
            if !ok {
                proof {
                    lemma_cascades_failed(old(self)@, done + step, all, self@);
                }
                return Err(Contradiction);
            }
            j += 1;
        }
        proof {
            assert(all.filter(|e: Strike| exists|t: int| 0 <= t < j && region[t] == e.0) =~= all);
        }
        proof {
            if old(self)@.consistent() {
                lemma_admits_consistent(old(self)@, all, self@);
            }
        }
        Ok(changed)
    }

    /// Removes `val` from every cell of every region that holds `cell`, but
    /// for the cells in `ignore`.
    pub fn clean_reg(&mut self, cell: Cell, ignore: &[Cell], val: u16) -> (res: Result<
        bool,
        Contradiction,
    >)
        requires
            old(self).wf(),
            val < 16,
        ensures
            final(self).wf(),
            old(self)@.cascades(
                old(self)@.region_strikes(cell, ignore@, val),
                res is Ok,
                final(self)@,
            ),
            res matches Ok(changed) ==> changed == (final(self)@ != old(self)@),
            res is Ok && old(self)@.consistent() ==> final(self)@.consistent(),
        decreases old(self)@.weight(), 2nat,
    {
        let count: usize = self.regions.len();
        let mut changed = false;
        let mut i: usize = 0;
        let ghost regions = self@.regions;
        let ghost all = old(self)@.region_strikes(cell, ignore@, val);
        proof {
            lemma_admits_self(self@, Set::<Strike>::empty());
        }
        while i < count
            invariant
                self.wf(),
                old(self).wf(),
                count == self.regions.len(),
                self@.regions == regions,
                old(self)@.regions == regions,
                val < 16,
                i <= count,
                all == old(self)@.region_strikes(cell, ignore@, val),
                old(self)@.cascades(
                    all.filter(
                        |e: Strike|
                            exists|k: int|
                                0 <= k < i && #[trigger] regions[k].contains(cell)
                                    && regions[k].contains(e.0),
                    ),
                    true,
                    self@,
                ),
                changed == (self@ != old(self)@),
            decreases count - i,
        {
            let ghost before = self@;
            let ghost done = all.filter(
                |e: Strike|
                    exists|k: int|
                        0 <= k < i && #[trigger] regions[k].contains(cell) && regions[k].contains(
                            e.0,
                        ),
            );
            let ghost step: Set<Strike> = if regions[i as int].contains(cell) {
                before.box_strikes(i as int, ignore@, val)
            } else {
                Set::empty()
            };
            let mut ok = true;
            assert(self.regions[i as int]@ == regions[i as int]);
            if listed_cell(self.regions[i].as_slice(), cell) {
                proof {
                    lemma_weight_refines(before, old(self)@);
                }
                match self.clean_region(i, ignore, val) {
                    Err(e) => {
                        ok = false;
                    },
                    Ok(ch) => {
                        changed = changed || ch;
                    },
                }
            } else {
                proof {
                    lemma_admits_self(before, step);
                }
            }
            proof {
                lemma_cascades_then(old(self)@, done, before, step, ok, self@);
                assert(done + step =~= all.filter(
                    |e: Strike|
                        exists|k: int|
                            0 <= k < i + 1 && #[trigger] regions[k].contains(cell)
                                && regions[k].contains(e.0),
                ));
                if self@ == old(self)@ {
                    lemma_refines_equal(before, self@);
                }
            }
            if !ok {
                proof {
                    lemma_cascades_failed(old(self)@, done + step, all, self@);
                }
                return Err(Contradiction);
            }
            i += 1;
        }
        proof {
            assert(all.filter(
                |e: Strike|
                    exists|k: int|
                        0 <= k < i && #[trigger] regions[k].contains(cell) && regions[k].contains(
                            e.0,
                        ),
            ) =~= all);
        }
        proof {
            if old(self)@.consistent() {
                lemma_admits_consistent(old(self)@, all, self@);
            }
        }
        Ok(changed)
    }
}

} // verus!
