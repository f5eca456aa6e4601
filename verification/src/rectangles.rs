//! Empty rectangles: a digit has two places left in a line, and in some
//! region apart from them all its places lie in one parallel line or in the
//! cross-line of one of the two. The cell where that parallel line meets
//! the cross-line of the other cannot hold the digit.

use vstd::prelude::*;
use crate::bits::{is_set, offers};
use crate::board::{region_holds, Board, Cell};
use crate::findings::note;
use crate::grid::Grid;

verus! {

/// The cell at position `pos` of the row `line`, or of the column `line`.
pub open spec fn in_line(by_rows: bool, line: usize, pos: usize) -> Cell {
    if by_rows {
        Cell { row: line, col: pos }
    } else {
        Cell { row: pos, col: line }
    }
}

/// The row of a cell, or its column.
pub open spec fn line_of(by_rows: bool, c: Cell) -> usize {
    if by_rows {
        c.row
    } else {
        c.col
    }
}

/// The column of a cell, or its row.
pub open spec fn pos_of(by_rows: bool, c: Cell) -> usize {
    if by_rows {
        c.col
    } else {
        c.row
    }
}

/// The order in which the lines are looked at: rows before columns, then
/// by digit, then by line, then the lower of the two places first.
pub open spec fn looked_at_before(
    a: (bool, u16, usize, usize, usize),
    b: (bool, u16, usize, usize, usize),
) -> bool {
    ||| a.0 && !b.0
    ||| a.0 == b.0 && a.1 < b.1
    ||| a.0 == b.0 && a.1 == b.1 && a.2 < b.2
    ||| a.0 == b.0 && a.1 == b.1 && a.2 == b.2 && a.3 < a.4 && b.4 < b.3
}

impl Grid {
    /// The places `weak` and `strong` are the only ones of the line that offer `val`.
    pub open spec fn pair_in_line(self, by_rows: bool, val: u16, line: usize, weak: usize, strong: usize) -> bool {
        &&& line < self.size()
        &&& weak < self.size()
        &&& strong < self.size()
        &&& weak != strong
        &&& 1 <= val <= self.size()
        &&& offers(self.at(in_line(by_rows, line, weak)), val)
        &&& offers(self.at(in_line(by_rows, line, strong)), val)
        &&& forall|p: usize|
            p < self.size() && p != weak && p != strong ==> !offers(
                #[trigger] self.at(in_line(by_rows, line, p)),
                val,
            )
    }

    /// The region with the given index holds none of the three cells, and
    /// every cell of it that offers `val` lies in the line of `cell` or at
    /// the place `strong`.
    pub open spec fn points_at(
        self,
        k: int,
        by_rows: bool,
        val: u16,
        line: usize,
        weak: usize,
        strong: usize,
        cell: Cell,
    ) -> bool {
        &&& 0 <= k < self.regions.len()
        &&& !self.regions[k].contains(in_line(by_rows, line, weak))
        &&& !self.regions[k].contains(in_line(by_rows, line, strong))
        &&& !self.regions[k].contains(cell)
        &&& forall|t: int|
            0 <= t < self.regions[k].len() ==> line_of(by_rows, #[trigger] self.regions[k][t])
                == line_of(by_rows, cell) || pos_of(by_rows, self.regions[k][t]) == strong
                    || !offers(
                self.at(self.regions[k][t]),
                val,
            )
    }

    /// `cell` is a cell that the empty rectangle clears: it stands at the
    /// place `weak` in another line, offers `val`, and some region points at it.
    pub open spec fn rectangle_hit(
        self,
        by_rows: bool,
        val: u16,
        line: usize,
        weak: usize,
        strong: usize,
        cell: Cell,
    ) -> bool {
        &&& self.pair_in_line(by_rows, val, line, weak, strong)
        &&& self.holds(cell)
        &&& pos_of(by_rows, cell) == weak
        &&& line_of(by_rows, cell) != line
        &&& offers(self.at(cell), val)
        &&& exists|k: int| self.points_at(k, by_rows, val, line, weak, strong, cell)
    }

    /// `cells` are the cells that the empty rectangle clears, in the order of their lines.
    pub open spec fn rectangle_hits(
        self,
        by_rows: bool,
        val: u16,
        line: usize,
        weak: usize,
        strong: usize,
        cells: Seq<Cell>,
    ) -> bool {
        &&& forall|c: Cell| cells.contains(c) <==>
            self.rectangle_hit(by_rows, val, line, weak, strong, c)
        &&& forall|i: int, j: int|
            0 <= i < j < cells.len() ==> line_of(by_rows, cells[i]) < line_of(by_rows, cells[j])
    }

    /// Nothing along the rows, or along the columns, that is looked at before `key` clears a cell.
    pub open spec fn first_along(self, by_rows: bool, key: (bool, u16, usize, usize, usize)) -> bool {
        forall|val: u16, line: usize, weak: usize, strong: usize, c: Cell| #[trigger]
            self.rectangle_hit(by_rows, val, line, weak, strong, c) ==> !looked_at_before(
                (by_rows, val, line, weak, strong),
                key,
            )
    }

    /// `cells` are what is cleared by the first empty rectangle along the
    /// rows, or along the columns, that clears a cell, and `val` is its digit.
    pub open spec fn found_along(self, by_rows: bool, val: u16, cells: Seq<Cell>) -> bool {
        exists|line: usize, weak: usize, strong: usize|
            #[trigger] self.rectangle_hits(by_rows, val, line, weak, strong, cells)
                && self.first_along(
                by_rows,
                (by_rows, val, line, weak, strong),
            )
    }

    /// `cells` are what is cleared by the first empty rectangle that clears
    /// a cell, and `val` is its digit.
    pub open spec fn found_first(self, val: u16, cells: Seq<Cell>) -> bool {
        exists|by_rows: bool, line: usize, weak: usize, strong: usize|
            #[trigger] self.rectangle_hits(by_rows, val, line, weak, strong, cells)
                && self.first_rectangle((by_rows, val, line, weak, strong))
    }

    /// Nothing that is looked at before `key` clears a cell.
    pub open spec fn first_rectangle(self, key: (bool, u16, usize, usize, usize)) -> bool {
        forall|by_rows: bool, val: u16, line: usize, weak: usize, strong: usize, c: Cell| #[trigger]
            self.rectangle_hit(by_rows, val, line, weak, strong, c) ==> !looked_at_before(
                (by_rows, val, line, weak, strong),
                key,
            )
    }
}

fn cell_in_line(by_rows: bool, line: usize, pos: usize) -> (c: Cell)
    ensures
        c == in_line(by_rows, line, pos),
{
    if by_rows {
        Cell { row: line, col: pos }
    } else {
        Cell { row: pos, col: line }
    }
}

/// The two places of the line that offer `val`, the lower first, if there are exactly two.
fn pair_of_line(board: &Board, by_rows: bool, val: u16, line: usize) -> (r: Option<(usize, usize)>)
    requires
        board@.shaped(),
        line < board@.size(),
        1 <= val <= board@.size(),
    ensures
        r matches Some(p) ==> p.0 < p.1 && board@.pair_in_line(by_rows, val, line, p.0, p.1)
            && board@.pair_in_line(by_rows, val, line, p.1, p.0),
        r is None ==> forall|a: usize, b: usize| !board@.pair_in_line(by_rows, val, line, a, b),
{
    let n: usize = board.size();
    let mut first: usize = n;
    let mut second: usize = n;
    let mut p: usize = 0;
    while p < n
        invariant
            board@.shaped(),
            n == board@.size(),
            line < n,
            1 <= val <= n,
            p <= n,
            first <= n,
            second <= n,
            first == n ==> second == n && forall|q: usize|
                q < p ==> !offers(#[trigger] board@.at(in_line(by_rows, line, q)), val),
            first < n ==> first < p && offers(board@.at(in_line(by_rows, line, first)), val),
            first < n && second == n ==> forall|q: usize|
                q < p && q != first ==>
                    !offers(#[trigger] board@.at(in_line(by_rows, line, q)), val),
            second < n ==> first < second < p && offers(
                board@.at(in_line(by_rows, line, second)),
                val,
            ) && forall|q: usize|
                q < p && q != first && q != second ==> !offers(
                    #[trigger] board@.at(in_line(by_rows, line, q)),
                    val,
                ),
        decreases n - p,
    {
        if is_set(board.mask(cell_in_line(by_rows, line, p)), val) {
            if first == n {
                first = p;
            } else if second == n {
                second = p;
            } else {
                proof {
                    assert forall|a: usize, b: usize| !board@.pair_in_line(
                        by_rows,
                        val,
                        line,
                        a,
                        b,
                    ) by {
                        if board@.pair_in_line(by_rows, val, line, a, b) {
                            assert(offers(board@.at(in_line(by_rows, line, first)), val));
                            assert(offers(board@.at(in_line(by_rows, line, second)), val));
                            assert(offers(board@.at(in_line(by_rows, line, p)), val));
                        }
                    }
                }
                return None;
            }
        }
        p += 1;
    }
    if second < n {
        Some((first, second))
    } else {
        proof {
            assert forall|a: usize, b: usize| !board@.pair_in_line(by_rows, val, line, a, b) by {
                if board@.pair_in_line(by_rows, val, line, a, b) {
                    assert(offers(board@.at(in_line(by_rows, line, a)), val));
                    assert(offers(board@.at(in_line(by_rows, line, b)), val));
                }
            }
        }
        None
    }
}

/// Whether the region with the given index points at the cell.
fn region_points(
    board: &Board,
    k: usize,
    by_rows: bool,
    val: u16,
    line: usize,
    weak: usize,
    strong: usize,
    cell: Cell,
) -> (r: bool)
    requires
        board@.shaped(),
        k < board@.regions.len(),
        val < 16,
    ensures
        r == board@.points_at(k as int, by_rows, val, line, weak, strong, cell),
{
    let region = &board.regions[k];
    assert(region@ == board@.regions[k as int]);
    if region_holds(region, cell_in_line(by_rows, line, weak)) || region_holds(
        region,
        cell_in_line(by_rows, line, strong),
    ) || region_holds(region, cell) {
        return false;
    }
    let mut t: usize = 0;
    while t < region.len()
        invariant
            board@.shaped(),
            k < board@.regions.len(),
            region@ == board@.regions[k as int],
            val < 16,
            t <= region.len(),
            forall|s: int|
                0 <= s < t ==> line_of(by_rows, #[trigger] region@[s]) == line_of(by_rows, cell)
                    || pos_of(by_rows, region@[s]) == strong || !offers(board@.at(region@[s]), val),
        decreases region.len() - t,
    {
        let c: Cell = region[t];
        assert(board@.holds(board@.regions[k as int][t as int]));
        let same_line = if by_rows {
            c.row == cell.row
        } else {
            c.col == cell.col
        };
        let at_strong = if by_rows {
            c.col == strong
        } else {
            c.row == strong
        };
        if !same_line && !at_strong && is_set(board.mask(c), val) {
            return false;
        }
        t += 1;
    }
    true
}

/// The cells that the empty rectangle of the pair clears.
fn hits(board: &Board, by_rows: bool, val: u16, line: usize, weak: usize, strong: usize) -> (r: Vec<
    Cell,
>)
    requires
        board@.shaped(),
        board@.pair_in_line(by_rows, val, line, weak, strong),
    ensures
        board@.rectangle_hits(by_rows, val, line, weak, strong, r@),
{
    let n: usize = board.size();
    let mut out: Vec<Cell> = Vec::new();
    let mut other: usize = 0;
    while other < n
        invariant
            board@.shaped(),
            n == board@.size(),
            board@.pair_in_line(by_rows, val, line, weak, strong),
            other <= n,
            forall|c: Cell|
                out@.contains(c) <==> board@.rectangle_hit(by_rows, val, line, weak, strong, c)
                    && line_of(by_rows, c) < other,
            forall|i: int, j: int|
                0 <= i < j < out.len() ==> line_of(by_rows, out@[i]) < line_of(by_rows, out@[j]),
        decreases n - other,
    {
        let cell = cell_in_line(by_rows, other, weak);
        let ghost prev = out@;
        let mut found = false;
        if other != line && is_set(board.mask(cell), val) {
            let mut k: usize = 0;
            while k < board.regions.len()
                invariant
                    board@.shaped(),
                    val < 16,
                    k <= board.regions.len(),
                    found == exists|q: int|
                        0 <= q < k && board@.points_at(q, by_rows, val, line, weak, strong, cell),
                decreases board.regions.len() - k,
            {
                if region_points(board, k, by_rows, val, line, weak, strong, cell) {
                    found = true;
                }
                k += 1;
            }
            if found {
                note(&mut out, cell);
            }
        }
        proof {
            assert(found == board@.rectangle_hit(by_rows, val, line, weak, strong, cell)) by {
                if board@.rectangle_hit(by_rows, val, line, weak, strong, cell) {
                    let q = choose|q: int| board@.points_at(
                        q, by_rows, val, line, weak, strong, cell
                    );
                    assert(0 <= q < board.regions.len());
                }
            }
            assert forall|c: Cell|
                out@.contains(c) <==> board@.rectangle_hit(by_rows, val, line, weak, strong, c)
                    && line_of(by_rows, c) < other + 1 by {
                if board@.rectangle_hit(by_rows, val, line, weak, strong, c) && line_of(by_rows, c)
                    == other {
                    assert(c == cell);
                }
            }
            assert forall|i: int, j: int| 0 <= i < j < out.len() implies line_of(by_rows, out@[i])
                < line_of(by_rows, out@[j]) by {
                if j == prev.len() {
                    assert(prev.contains(prev[i]));
                }
            }
        }
        other += 1;
    }
    proof {
        assert forall|c: Cell|
            out@.contains(c) <==> board@.rectangle_hit(by_rows, val, line, weak, strong, c) by {
            if board@.rectangle_hit(by_rows, val, line, weak, strong, c) {
                assert(line_of(by_rows, c) < n);
            }
        }
    }
    out
}

/// The first empty rectangle along the rows, or along the columns, that
/// clears a cell.
fn scan(board: &Board, by_rows: bool) -> (r: Option<(Vec<Cell>, u16)>)
    requires
        board@.shaped(),
    ensures
        r is None ==> forall|val: u16, line: usize, weak: usize, strong: usize, c: Cell|
            !#[trigger] board@.rectangle_hit(by_rows, val, line, weak, strong, c),
        r matches Some(found) ==>
            found.0.len() > 0 && board@.found_along(by_rows, found.1, found.0@),
{
    let n: usize = board.size();
    let mut val: u16 = 1;
    while val as usize <= n
        invariant
            board@.shaped(),
            n == board@.size(),
            1 <= val <= n + 1,
            forall|val2: u16, line2: usize, weak2: usize, strong2: usize, c: Cell| #[trigger]
                board@.rectangle_hit(by_rows, val2, line2, weak2, strong2, c) ==> val2 >= val,
        decreases n + 1 - val,
    {
        let mut line: usize = 0;
        while line < n
            invariant
                board@.shaped(),
                n == board@.size(),
                1 <= val <= n,
                line <= n,
                forall|val2: u16, line2: usize, weak2: usize, strong2: usize, c: Cell| #[trigger]
                    board@.rectangle_hit(by_rows, val2, line2, weak2, strong2, c) ==>
                        val2 > val || (
                    val2 == val && line2 >= line),
            decreases n - line,
        {
            match pair_of_line(board, by_rows, val, line) {
                None => {},
                Some((a, b)) => {
                    proof {
                        assert forall|weak2: usize, strong2: usize| #[trigger]
                            board@.pair_in_line(by_rows, val, line, weak2, strong2) implies
                                (weak2 == a
                            && strong2 == b) || (weak2 == b && strong2 == a) by {
                            assert(offers(board@.at(in_line(by_rows, line, a)), val));
                            assert(offers(board@.at(in_line(by_rows, line, b)), val));
                            assert(offers(board@.at(in_line(by_rows, line, weak2)), val));
                            assert(offers(board@.at(in_line(by_rows, line, strong2)), val));
                        }
                    }
                    let low = hits(board, by_rows, val, line, a, b);
                    if low.len() > 0 {
                        proof {
                            assert(board@.rectangle_hits(by_rows, val, line, a, b, low@));
                            assert forall|val2: u16, line2: usize, weak2: usize, strong2: usize, c: Cell| #[trigger]
                                board@.rectangle_hit(
                                    by_rows,
                                    val2,
                                    line2,
                                    weak2,
                                    strong2,
                                    c,
                                ) implies !looked_at_before(
                                (by_rows, val2, line2, weak2, strong2),
                                (by_rows, val, line, a, b),
                            ) by {}
                            assert(board@.first_along(by_rows, (by_rows, val, line, a, b)));
                            assert(board@.found_along(by_rows, val, low@));
                        }
                        return Some((low, val));
                    }
                    let high = hits(board, by_rows, val, line, b, a);
                    if high.len() > 0 {
                        proof {
                            assert forall|c: Cell| !board@.rectangle_hit(by_rows, val, line, a, b, c) by {
                                assert(!low@.contains(c));
                            }
                            assert(board@.rectangle_hits(by_rows, val, line, b, a, high@));
                            assert forall|val2: u16, line2: usize, weak2: usize, strong2: usize, c: Cell| #[trigger]
                                board@.rectangle_hit(
                                    by_rows,
                                    val2,
                                    line2,
                                    weak2,
                                    strong2,
                                    c,
                                ) implies !looked_at_before(
                                (by_rows, val2, line2, weak2, strong2),
                                (by_rows, val, line, b, a),
                            ) by {
                                if val2 == val && line2 == line {
                                    assert(board@.pair_in_line(by_rows, val, line, weak2, strong2));
                                }
                            }
                            assert(board@.first_along(by_rows, (by_rows, val, line, b, a)));
                            assert(board@.found_along(by_rows, val, high@));
                        }
                        return Some((high, val));
                    }
                    proof {
                        assert forall|weak2: usize, strong2: usize, c: Cell|
                            !#[trigger] board@.rectangle_hit(by_rows, val, line, weak2, strong2, c) by {
                            assert(!low@.contains(c));
                            assert(!high@.contains(c));
                        }
                    }
                },
            }
            line += 1;
        }
        val += 1;
    }
    None
}

/// The first empty rectangle that clears a cell, with the cells that it
/// clears and its digit: rows before columns, then by digit, then by line.
pub fn from_board(board: &Board) -> (r: Option<(Vec<Cell>, u16)>)
    requires
        board@.shaped(),
    ensures
        r is None ==>
            forall|by_rows: bool, val: u16, line: usize, weak: usize, strong: usize, c: Cell|
            !#[trigger] board@.rectangle_hit(by_rows, val, line, weak, strong, c),
        r matches Some(found) ==> found.0.len() > 0 && board@.found_first(found.1, found.0@),
{
    match scan(board, true) {
        Some(found) => {
            proof {
                let (line, weak, strong) = choose|line: usize, weak: usize, strong: usize|
                    #[trigger] board@.rectangle_hits(true, found.1, line, weak, strong, found.0@)
                        && board@.first_along(true, (true, found.1, line, weak, strong));
                assert(board@.first_rectangle((true, found.1, line, weak, strong)));
            }
            Some(found)
        },
        None => match scan(board, false) {
            Some(found) => {
                proof {
                    let (line, weak, strong) = choose|line: usize, weak: usize, strong: usize|
                        #[trigger] board@.rectangle_hits(
                            false, found.1, line, weak, strong, found.0@
                        )
                            && board@.first_along(false, (false, found.1, line, weak, strong));
                    assert(board@.first_rectangle((false, found.1, line, weak, strong)));
                }
                Some(found)
            },
            None => None,
        },
    }
}

} // verus!
