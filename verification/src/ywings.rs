//! Y-wings: a pivot with two candidates and two wings that each share one
//! of them with it and a third digit with each other; whatever the pivot
//! holds, one of the wings holds the third digit.

use vstd::prelude::*;
use crate::bits::{count, count_ones, is_set, lowest_digit, offers};
use crate::board::{Board, Cell};
use crate::findings::note;
use crate::grid::Grid;
use crate::misc::{before, next_cell};
use crate::nakeds::in_order;

verus! {

/// A Y-wing with one of the cells that it clears.
#[derive(Debug, Clone, Copy)]
pub struct YWing {
    pub origin: Cell,
    pub foci: (Cell, Cell),
    pub target: Cell,
    pub val: u16,
}

impl Grid {
    /// The cell lies on the grid and has exactly two candidates.
    pub open spec fn bivalue(self, c: Cell) -> bool {
        self.holds(c) && count(self.at(c)) == 2
    }

    /// `val` is the lowest digit that both cells offer.
    pub open spec fn lowest_common(self, a: Cell, b: Cell, val: u16) -> bool {
        &&& offers(self.at(a) & self.at(b), val)
        &&& forall|e: u16| e < val ==> !offers(self.at(a) & self.at(b), e)
    }

    /// `y` is a Y-wing: pivot and wings have two candidates each, the pivot
    /// sees both wings, every digit occurs in none or two of the three masks,
    /// `val` is the digit that the wings share, and the target is a fourth
    /// cell that offers `val` and sees both wings. The wings come in reading order.
    pub open spec fn is_ywing(self, y: YWing) -> bool {
        &&& self.bivalue(y.origin)
        &&& self.bivalue(y.foci.0)
        &&& self.bivalue(y.foci.1)
        &&& before(y.foci.0, y.foci.1)
        &&& self.sees(y.origin, y.foci.0)
        &&& self.sees(y.origin, y.foci.1)
        &&& self.at(y.origin) ^ self.at(y.foci.0) ^ self.at(y.foci.1) == 0
        &&& self.lowest_common(y.foci.0, y.foci.1, y.val)
        &&& self.holds(y.target)
        &&& y.target != y.origin
        &&& y.target != y.foci.0
        &&& y.target != y.foci.1
        &&& offers(self.at(y.target), y.val)
        &&& self.sees(y.foci.0, y.target)
        &&& self.sees(y.foci.1, y.target)
    }
}

/// The cells with exactly two candidates, in reading order.
pub fn bivalue_cells(board: &Board) -> (r: Vec<Cell>)
    requires
        board@.shaped(),
    ensures
        forall|i: int| 0 <= i < r.len() ==> board@.bivalue(#[trigger] r[i]),
        forall|c: Cell| board@.bivalue(c) ==> r@.contains(c),
        in_order(r@),
{
    let n: usize = board.size();
    let mut out: Vec<Cell> = Vec::new();
    let mut cursor = Cell { row: 0, col: 0 };
    while cursor.row < n
        invariant
            board@.shaped(),
            n == board@.size(),
            cursor.row <= n,
            cursor.col < n,
            forall|i: int|
                0 <= i < out.len() ==> board@.bivalue(#[trigger] out[i]) && before(out[i], cursor),
            forall|c: Cell| board@.bivalue(c) && before(c, cursor) ==> out@.contains(c),
            in_order(out@),
        decreases n - cursor.row, n - cursor.col,
    {
        if count_ones(board.mask(cursor)) == 2 {
            note(&mut out, cursor);
        }
        cursor = next_cell(cursor, n);
    }
    proof {
        assert forall|c: Cell| board@.bivalue(c) implies out@.contains(c) by {
            assert(before(c, cursor));
        }
    }
    out
}

/// Adds to `found` the Y-wings with the given pivot and wings.
fn scan_wings(board: &Board, origin: Cell, first: Cell, second: Cell, found: &mut Vec<YWing>)
    requires
        board@.shaped(),
        board@.bivalue(origin),
        board@.bivalue(first),
        board@.bivalue(second),
        before(first, second),
    ensures
        forall|y: YWing| #[trigger] old(found)@.contains(y) ==> final(found)@.contains(y),
        forall|y: YWing| #[trigger]
            final(found)@.contains(y) ==> old(found)@.contains(y) || board@.is_ywing(y),
        forall|y: YWing| #[trigger]
            board@.is_ywing(y) && y.origin == origin && y.foci == (first, second)
                ==> final(found)@.contains(y),
{
    if !origin.can_see(board, &first) || !origin.can_see(board, &second) {
        return ;
    }
    let a: u16 = board.mask(first);
    let b: u16 = board.mask(second);
    if board.mask(origin) ^ a ^ b != 0 {
        return ;
    }
    let common: u16 = a & b;
    if common == 0 {
        proof {
            crate::bits::lemma_bit();
        }
        return ;
    }
    let val: u16 = lowest_digit(common);
    let n: usize = board.size();
    let mut cursor = Cell { row: 0, col: 0 };
    while cursor.row < n
        invariant
            board@.shaped(),
            n == board@.size(),
            cursor.row <= n,
            cursor.col < n,
            board@.bivalue(origin),
            board@.bivalue(first),
            board@.bivalue(second),
            before(first, second),
            board@.sees(origin, first),
            board@.sees(origin, second),
            board@.at(origin) ^ board@.at(first) ^ board@.at(second) == 0,
            board@.lowest_common(first, second, val),
            forall|y: YWing| #[trigger] old(found)@.contains(y) ==> found@.contains(y),
            forall|y: YWing| #[trigger]
                found@.contains(y) ==> old(found)@.contains(y) || board@.is_ywing(y),
            forall|y: YWing| #[trigger]
                board@.is_ywing(y) && y.origin == origin && y.foci == (first, second) && before(
                    y.target,
                    cursor,
                ) ==> found@.contains(y),
        decreases n - cursor.row, n - cursor.col,
    {
        if cursor != origin && cursor != first && cursor != second && is_set(
            board.mask(cursor),
            val,
        ) && first.can_see(board, &cursor) && second.can_see(board, &cursor) {
            let y = YWing { origin, foci: (first, second), target: cursor, val };
            proof {
                assert(board@.is_ywing(y));
            }
            note(found, y);
            proof {
                assert forall|z: YWing| #[trigger]
                    board@.is_ywing(z) && z.origin == origin && z.foci == (first, second)
                        && z.target
                        == cursor implies z == y by {
                    if z.val < val {
                    } else if val < z.val {
                    }
                }
            }
        }
        cursor = next_cell(cursor, n);
    }
}

/// Adds to `found` the Y-wings with the given pivot.
fn scan_origin(board: &Board, useful: &Vec<Cell>, origin: Cell, found: &mut Vec<YWing>)
    requires
        board@.shaped(),
        board@.bivalue(origin),
        forall|i: int| 0 <= i < useful.len() ==> board@.bivalue(#[trigger] useful[i]),
        forall|c: Cell| board@.bivalue(c) ==> useful@.contains(c),
        in_order(useful@),
    ensures
        forall|y: YWing| #[trigger] old(found)@.contains(y) ==> final(found)@.contains(y),
        forall|y: YWing| #[trigger]
            final(found)@.contains(y) ==> old(found)@.contains(y) || board@.is_ywing(y),
        forall|y: YWing| #[trigger]
            board@.is_ywing(y) && y.origin == origin ==> final(found)@.contains(y),
{
    let mut a: usize = 0;
    while a < useful.len()
        invariant
            board@.shaped(),
            board@.bivalue(origin),
            forall|i: int| 0 <= i < useful.len() ==> board@.bivalue(#[trigger] useful[i]),
            forall|c: Cell| board@.bivalue(c) ==> useful@.contains(c),
            in_order(useful@),
            a <= useful.len(),
            forall|y: YWing| #[trigger] old(found)@.contains(y) ==> found@.contains(y),
            forall|y: YWing| #[trigger]
                found@.contains(y) ==> old(found)@.contains(y) || board@.is_ywing(y),
            forall|y: YWing, i: int| #[trigger]
                board@.is_ywing(y) && y.origin == origin && 0 <= i < a && #[trigger] useful[i]
                    == y.foci.0 ==> found@.contains(y),
        decreases useful.len() - a,
    {
        let mut b: usize = a + 1;
        let ghost entry = found@;
        while b < useful.len()
            invariant
                board@.shaped(),
                board@.bivalue(origin),
                forall|i: int| 0 <= i < useful.len() ==> board@.bivalue(#[trigger] useful[i]),
                in_order(useful@),
                a < b <= useful.len(),
                forall|y: YWing| #[trigger] entry.contains(y) ==> found@.contains(y),
                forall|y: YWing| #[trigger]
                    found@.contains(y) ==> old(found)@.contains(y) || board@.is_ywing(y),
                forall|y: YWing, j: int| #[trigger]
                    board@.is_ywing(y) && y.origin == origin && y.foci.0 == useful[a as int]
                        && a < j < b
                        && #[trigger] useful[j] == y.foci.1 ==> found@.contains(y),
            decreases useful.len() - b,
        {
            let ghost had = found@;
            scan_wings(board, origin, useful[a], useful[b], found);
            proof {
                assert forall|y: YWing, j: int| #[trigger]
                    board@.is_ywing(y) && y.origin == origin && y.foci.0 == useful[a as int]
                        && a < j < b
                        + 1 && #[trigger] useful[j] == y.foci.1 implies found@.contains(y) by {
                    if j < b {
                        assert(had.contains(y));
                    } else {
                        assert(y.foci == (useful[a as int], useful[b as int]));
                    }
                }
            }
            b += 1;
        }
        proof {
            assert forall|y: YWing, i: int| #[trigger]
                board@.is_ywing(y) && y.origin == origin && 0 <= i < a + 1 && #[trigger] useful[i]
                    == y.foci.0 implies found@.contains(y) by {
                if i < a {
                    assert(entry.contains(y));
                } else {
                    assert(useful@.contains(y.foci.1));
                    let j = choose|j: int| 0 <= j < useful.len() && useful@[j] == y.foci.1;
                    if j < a {
                        assert(before(useful@[j], useful@[a as int]));
                    }
                    assert(j > a);
                }
            }
        }
        a += 1;
    }
    proof {
        assert forall|y: YWing| #[trigger] board@.is_ywing(y) && y.origin == origin implies
            found@.contains(
            y,
        ) by {
            assert(useful@.contains(y.foci.0));
            let i = choose|i: int| 0 <= i < useful.len() && useful@[i] == y.foci.0;
            assert(useful[i] == y.foci.0);
        }
    }
}

/// The Y-wings of the board, one finding for each cell that one clears.
pub fn from_board(board: &Board) -> (found: Vec<YWing>)
    requires
        board@.shaped(),
    ensures
        forall|y: YWing| #[trigger] found@.contains(y) <==> board@.is_ywing(y),
{
    let useful = bivalue_cells(board);
    let mut found: Vec<YWing> = Vec::new();
    let mut o: usize = 0;
    while o < useful.len()
        invariant
            board@.shaped(),
            forall|i: int| 0 <= i < useful.len() ==> board@.bivalue(#[trigger] useful[i]),
            forall|c: Cell| board@.bivalue(c) ==> useful@.contains(c),
            in_order(useful@),
            o <= useful.len(),
            forall|y: YWing| #[trigger] found@.contains(y) ==> board@.is_ywing(y),
            forall|y: YWing, i: int| #[trigger]
                board@.is_ywing(y) && 0 <= i < o && #[trigger] useful[i] == y.origin ==>
                    found@.contains(y),
        decreases useful.len() - o,
    {
        let ghost had = found@;
        scan_origin(board, &useful, useful[o], &mut found);
        proof {
            assert forall|y: YWing, i: int| #[trigger]
                board@.is_ywing(y) && 0 <= i < o + 1 && #[trigger] useful[i] == y.origin implies
                    found@.contains(
                y,
            ) by {
                if i < o {
                    assert(had.contains(y));
                }
            }
        }
        o += 1;
    }
    proof {
        assert forall|y: YWing| #[trigger] board@.is_ywing(y) implies found@.contains(y) by {
            assert(useful@.contains(y.origin));
            let i = choose|i: int| 0 <= i < useful.len() && useful@[i] == y.origin;
            assert(useful[i] == y.origin);
        }
    }
    found
}

} // verus!
