//! Naked subsets: `k` open cells of one unit that offer only `k` digits
//! between them keep those digits for themselves.

use vstd::prelude::*;
use crate::bits::{
    count, count_ones, is_single, lemma_bit, lemma_count_within, lemma_mask_ext, lemma_ops,
    lemma_within_by_offers, offers, single,
};
use crate::board::{region_holds, Board, Cell};
use crate::findings::{record, views};
use crate::grid::Grid;
use crate::misc::{before, next_cell};

verus! {

/// Which kinds of unit hold all cells of a group.
#[derive(Debug, Clone, Copy, PartialEq, Eq, Structural)]
pub struct Relation {
    pub row: bool,
    pub col: bool,
    pub reg: bool,
}

/// A combination of cells with the union of their candidates.
#[derive(Debug, Clone)]
pub struct Group {
    pub relation: Relation,
    pub cells: Vec<Cell>,
    pub vals: u16,
}

/// What a `Group` holds.
pub struct GroupView {
    pub relation: Relation,
    pub cells: Seq<Cell>,
    pub vals: u16,
}

impl View for Group {
    type V = GroupView;

    open spec fn view(&self) -> GroupView {
        GroupView { relation: self.relation, cells: self.cells@, vals: self.vals }
    }
}

/// All cells lie in the row of the first.
pub open spec fn same_row(cells: Seq<Cell>) -> bool {
    forall|i: int| 0 <= i < cells.len() ==> (#[trigger] cells[i]).row == cells[0].row
}

/// All cells lie in the column of the first.
pub open spec fn same_col(cells: Seq<Cell>) -> bool {
    forall|i: int| 0 <= i < cells.len() ==> (#[trigger] cells[i]).col == cells[0].col
}

/// The cells come in reading order, none twice.
pub open spec fn in_order(cells: Seq<Cell>) -> bool {
    forall|i: int, j: int|
        0 <= i < j < cells.len() ==> before(#[trigger] cells[i], #[trigger] cells[j])
}

impl Grid {
    /// The region with the given index holds all the cells.
    pub open spec fn region_has_all(self, index: int, cells: Seq<Cell>) -> bool {
        forall|i: int| 0 <= i < cells.len() ==> self.regions[index].contains(#[trigger] cells[i])
    }

    /// Some region holds all the cells.
    pub open spec fn common_region(self, cells: Seq<Cell>) -> bool {
        exists|r: int| 0 <= r < self.regions.len() && #[trigger] self.region_has_all(r, cells)
    }

    /// The kinds of unit that hold all the cells.
    pub open spec fn relation_of(self, cells: Seq<Cell>) -> Relation {
        Relation { row: same_row(cells), col: same_col(cells), reg: self.common_region(cells) }
    }

    /// Some of the cells offers `d`.
    pub open spec fn union_offers(self, cells: Seq<Cell>, d: u16) -> bool {
        exists|i: int| 0 <= i < cells.len() && offers(self.at(#[trigger] cells[i]), d)
    }

    /// The cells are open cells of the grid in reading order, and `vals` is
    /// the union of their candidates.
    pub open spec fn is_combination(self, cells: Seq<Cell>, vals: u16) -> bool {
        &&& forall|i: int|
            0 <= i < cells.len() ==> self.holds(#[trigger] cells[i]) && !single(self.at(cells[i]))
        &&& in_order(cells)
        &&& forall|d: u16| offers(vals, d) == self.union_offers(cells, d)
    }

    /// `p` is a naked subset of size `k`: `k` open cells in reading order
    /// that share a unit and offer exactly `k` digits between them.
    pub open spec fn is_naked(self, k: int, p: GroupView) -> bool {
        &&& p.cells.len() == k
        &&& self.is_combination(p.cells, p.vals)
        &&& count(p.vals) == k
        &&& p.relation == self.relation_of(p.cells)
        &&& (p.relation.row || p.relation.col || p.relation.reg)
    }
}

/// No two groups of the list have the same cells.
pub open spec fn no_two_alike(list: Seq<GroupView>) -> bool {
    forall|i: int, j: int| 0 <= i < j < list.len() ==> list[i].cells != list[j].cells
}

/// The cells begin with `prefix`.
pub open spec fn begins_with(cells: Seq<Cell>, prefix: Seq<Cell>) -> bool {
    cells.len() >= prefix.len() && cells.take(prefix.len() as int) == prefix
}

/// The cells fix the combination.
pub proof fn lemma_combination_unique(g: Grid, cells: Seq<Cell>, a: u16, b: u16)
    requires
        g.is_combination(cells, a),
        g.is_combination(cells, b),
    ensures
        a == b,
{
    lemma_mask_ext(a, b);
}

impl Relation {
    /// The kinds of unit that both hold.
    pub fn and(self, rhs: Relation) -> (r: Relation)
        ensures
            r == (Relation {
                row: self.row && rhs.row,
                col: self.col && rhs.col,
                reg: self.reg && rhs.reg,
            }),
    {
        Relation { row: self.row && rhs.row, col: self.col && rhs.col, reg: self.reg && rhs.reg }
    }
}

impl Group {
    /// The group of no cell.
    pub fn empty() -> (r: Group)
        ensures
            r@.cells.len() == 0,
            r@.vals == 0,
            r@.relation == (Relation { row: true, col: true, reg: true }),
    {
        Group { relation: Relation { row: true, col: true, reg: true }, cells: Vec::new(), vals: 0 }
    }

    /// The group of one cell with its candidates.
    pub fn of_cell(cell: Cell, vals: u16) -> (r: Group)
        ensures
            r@.cells == seq![cell],
            r@.vals == vals,
            r@.relation == (Relation { row: true, col: true, reg: true }),
    {
        let mut cells: Vec<Cell> = Vec::new();
        cells.push(cell);
        assert(cells@ =~= seq![cell]);
        Group { relation: Relation { row: true, col: true, reg: true }, cells, vals }
    }

    /// This group and then `rhs`: the cells of both, the union of their
    /// candidates, and the relations that both have.
    pub fn add(&self, rhs: &Group) -> (r: Group)
        ensures
            r@.cells == self@.cells + rhs@.cells,
            r@.vals == self@.vals | rhs@.vals,
            r@.relation == (Relation {
                row: self.relation.row && rhs.relation.row,
                col: self.relation.col && rhs.relation.col,
                reg: self.relation.reg && rhs.relation.reg,
            }),
    {
        let mut cells: Vec<Cell> = Vec::new();
        let mut i: usize = 0;
        while i < self.cells.len()
            invariant
                i <= self.cells.len(),
                cells@ == self.cells@.take(i as int),
            decreases self.cells.len() - i,
        {
            cells.push(self.cells[i]);
            assert(cells@ =~= self.cells@.take(i + 1));
            i += 1;
        }
        assert(cells@ =~= self.cells@);
        let mut j: usize = 0;
        while j < rhs.cells.len()
            invariant
                j <= rhs.cells.len(),
                cells@ == self.cells@ + rhs.cells@.take(j as int),
            decreases rhs.cells.len() - j,
        {
            cells.push(rhs.cells[j]);
            assert(cells@ =~= self.cells@ + rhs.cells@.take(j + 1));
            j += 1;
        }
        assert(cells@ =~= self.cells@ + rhs.cells@);
        Group { relation: self.relation.and(rhs.relation), cells, vals: self.vals | rhs.vals }
    }

    /// The same group with the kinds of unit that hold all its cells.
    pub fn calc_relations(self, board: &Board) -> (r: Group)
        ensures
            r@.cells == self@.cells,
            r@.vals == self@.vals,
            r@.relation == board@.relation_of(self@.cells),
    {
        let len: usize = self.cells.len();
        let mut row = true;
        let mut col = true;
        let mut i: usize = 0;
        while i < len
            invariant
                i <= len,
                len == self.cells.len(),
                row == forall|t: int| 0 <= t < i ==>
                    (#[trigger] self.cells@[t]).row == self.cells@[0].row,
                col == forall|t: int| 0 <= t < i ==>
                    (#[trigger] self.cells@[t]).col == self.cells@[0].col,
            decreases len - i,
        {
            if self.cells[i].row != self.cells[0].row {
                row = false;
            }
            if self.cells[i].col != self.cells[0].col {
                col = false;
            }
            i += 1;
        }
        let mut reg = false;
        let mut r: usize = 0;
        while r < board.regions.len()
            invariant
                r <= board.regions.len(),
                reg == exists|q: int| 0 <= q < r
                    && #[trigger] board@.region_has_all(q, self.cells@),
            decreases board.regions.len() - r,
        {
            let has = self.within_region(board, r);
            reg = reg || has;
            r += 1;
        }
        Group { relation: Relation { row, col, reg }, cells: self.cells, vals: self.vals }
    }

    /// Whether the region with the given index holds all cells of the group.
    pub fn within_region(&self, board: &Board, index: usize) -> (r: bool)
        requires
            index < board.regions.len(),
        ensures
            r == board@.region_has_all(index as int, self@.cells),
    {
        let mut i: usize = 0;
        assert(board.regions[index as int]@ == board@.regions[index as int]);
        while i < self.cells.len()
            invariant
                i <= self.cells.len(),
                index < board.regions.len(),
                board.regions[index as int]@ == board@.regions[index as int],
                forall|t: int|
                    0 <= t < i ==> board@.regions[index as int].contains(#[trigger] self.cells@[t]),
            decreases self.cells.len() - i,
        {
            if !region_holds(&board.regions[index], self.cells[i]) {
                return false;
            }
            i += 1;
        }
        true
    }

    /// Whether no cell occurs twice in the group.
    pub fn no_repeats(&self) -> (r: bool)
        ensures
            r == forall|i: int, j: int| 0 <= i < j < self@.cells.len() ==>
                self@.cells[i] != self@.cells[j],
    {
        let len: usize = self.cells.len();
        let mut i: usize = 0;
        while i < len
            invariant
                i <= len,
                len == self.cells.len(),
                forall|a: int, b: int|
                    0 <= a < i && a < b < len ==> self.cells@[a] != self.cells@[b],
            decreases len - i,
        {
            let mut j: usize = i + 1;
            while j < len
                invariant
                    i < j <= len,
                    len == self.cells.len(),
                    forall|b: int| i < b < j ==> self.cells@[i as int] != self.cells@[b],
                decreases len - j,
            {
                if self.cells[i] == self.cells[j] {
                    assert(self@.cells[i as int] == self@.cells[j as int]);
                    return false;
                }
                j += 1;
            }
            i += 1;
        }
        true
    }
}

/// Adds to `found` every naked subset of size `k` whose cells start with those of `prefix`.
fn grow(board: &Board, k: usize, prefix: &Group, found: &mut Vec<Group>)
    requires
        board@.shaped(),
        prefix@.cells.len() < k,
        board@.is_combination(prefix@.cells, prefix@.vals),
        no_two_alike(views(old(found)@)),
        forall|i: int|
            0 <= i < old(found)@.len() ==> !begins_with(
                (#[trigger] views(old(found)@)[i]).cells,
                prefix@.cells,
            ),
    ensures
        no_two_alike(views(final(found)@)),
        forall|i: int|
            0 <= i < final(found)@.len() ==> i < old(found)@.len() || begins_with(
                (#[trigger] views(final(found)@)[i]).cells,
                prefix@.cells,
            ),
        final(found)@.len() >= old(found)@.len(),
        forall|i: int|
            0 <= i < old(found)@.len() ==>
                #[trigger] views(final(found)@)[i] == views(old(found)@)[i],
        forall|p: GroupView| #[trigger]
            views(old(found)@).contains(p) ==> views(final(found)@).contains(p),
        forall|p: GroupView| #[trigger]
            views(final(found)@).contains(p) ==> views(old(found)@).contains(p) || board@.is_naked(
                k as int,
                p,
            ),
        forall|p: GroupView| #[trigger]
            board@.is_naked(k as int, p)
                && p.cells.take(prefix@.cells.len() as int) == prefix@.cells
                ==> views(final(found)@).contains(p),
    decreases k - prefix@.cells.len(),
{
    let n: usize = board.size();
    let len: usize = prefix.cells.len();
    let ghost base = prefix@.cells;
    let mut cursor: Cell = if len == 0 {
        Cell { row: 0, col: 0 }
    } else {
        next_cell(prefix.cells[len - 1], n)
    };
    while cursor.row < n
        invariant
            board@.shaped(),
            n == board@.size(),
            len == prefix@.cells.len(),
            base == prefix@.cells,
            len < k,
            board@.is_combination(base, prefix@.vals),
            cursor.row <= n,
            cursor.col < n,
            len > 0 ==> before(base[len - 1], cursor),
            no_two_alike(views(found@)),
            found@.len() >= old(found)@.len(),
            forall|i: int|
                0 <= i < old(found)@.len() ==> #[trigger] views(found@)[i] == views(old(found)@)[i],
            forall|i: int|
                0 <= i < old(found)@.len() ==> !begins_with(
                    (#[trigger] views(old(found)@)[i]).cells,
                    base,
                ),
            forall|i: int|
                old(found)@.len() <= i < found@.len() ==> begins_with(
                    (#[trigger] views(found@)[i]).cells,
                    base,
                ) && views(found@)[i].cells.len() > len && before(views(found@)[i].cells[len as int], cursor),
            forall|p: GroupView| #[trigger]
                views(old(found)@).contains(p) ==> views(found@).contains(p),
            forall|p: GroupView| #[trigger]
                views(found@).contains(p) ==> views(old(found)@).contains(p) || board@.is_naked(
                    k as int,
                    p,
                ),
            forall|p: GroupView| #[trigger]
                board@.is_naked(k as int, p) && p.cells.take(len as int) == base && before(
                    p.cells[len as int],
                    cursor,
                ) ==> views(found@).contains(p),
        decreases n - cursor.row, n - cursor.col,
    {
        let m: u16 = board.mask(cursor);
        if !is_single(m) {
            let next = prefix.add(&Group::of_cell(cursor, m));
            if count_ones(next.vals) as usize <= k {
                proof {
                    lemma_ops();
                    assert(next@.cells =~= base.push(cursor));
                    assert forall|d: u16| offers(next@.vals, d) == board@.union_offers(
                        next@.cells,
                        d,
                    ) by {
                        if board@.union_offers(base, d) {
                            let i = choose|i: int| 0 <= i < base.len()
                                && offers(board@.at(#[trigger] base[i]), d);
                            assert(next@.cells[i] == base[i]);
                        }
                        if offers(m, d) {
                            assert(next@.cells[len as int] == cursor);
                        }
                        if board@.union_offers(next@.cells, d) {
                            let i = choose|i: int|
                                0 <= i < next@.cells.len()
                                    && offers(board@.at(#[trigger] next@.cells[i]), d);
                            if i < len {
                                assert(base[i] == next@.cells[i]);
                            }
                        }
                    }
                    assert(board@.is_combination(next@.cells, next@.vals));
                }
                if len + 1 == k {
                    let vals: u16 = next.vals;
                    let ghost cells = next@.cells;
                    let group = next.calc_relations(board);
                    if count_ones(vals) as usize == k && (group.relation.row || group.relation.col
                        || group.relation.reg) {
                        proof {
                            assert(board@.is_naked(k as int, group@));
                            assert forall|p: GroupView| #[trigger]
                                board@.is_naked(k as int, p) && p.cells.take(len as int) == base
                                    && p.cells[len as int] == cursor implies p == group@ by {
                                assert(p.cells =~= cells);
                                lemma_combination_unique(board@, cells, p.vals, vals);
                            }
                            assert(cells.take(len as int) =~= base);
                            assert(cells[len as int] == cursor);
                        }
                        let ghost had = views(found@);
                        record(found, group);
                        proof {
                            let now = views(found@);
                            assert forall|i: int, j: int| 0 <= i < j < now.len() implies
                                now[i].cells
                                != now[j].cells by {
                                if j == had.len() {
                                    assert(now[i] == had[i]);
                                    if i < old(found)@.len() {
                                        assert(had[i] == views(old(found)@)[i]);
                                    }
                                } else {
                                    assert(now[i] == had[i] && now[j] == had[j]);
                                }
                            }
                            assert forall|i: int|
                                old(found)@.len() <= i < found@.len() implies begins_with(
                                (#[trigger] now[i]).cells,
                                base,
                            ) && now[i].cells.len() > len && (before(now[i].cells[len as int], cursor)
                                || now[i].cells[len as int] == cursor) by {
                                if i < had.len() {
                                    assert(now[i] == had[i]);
                                }
                            }
                            assert forall|i: int| 0 <= i < old(found)@.len() implies
                                #[trigger] now[i]
                                == views(old(found)@)[i] by {
                                assert(now[i] == had[i]);
                            }
                        }
                    } else {
                        proof {
                            assert forall|p: GroupView| #[trigger]
                                board@.is_naked(k as int, p) && p.cells.take(len as int) == base
                                    && p.cells[len as int] == cursor implies false by {
                                assert(p.cells =~= cells);
                                lemma_combination_unique(board@, cells, p.vals, vals);
                            }
                        }
                    }
                } else {
                    let ghost had = views(found@);
                    proof {
                        assert forall|i: int| 0 <= i < found@.len() implies !begins_with(
                            (#[trigger] views(found@)[i]).cells,
                            next@.cells,
                        ) by {
                            let c = views(found@)[i].cells;
                            if begins_with(c, next@.cells) {
                                assert(c.take(len as int) =~= next@.cells.take(len as int));
                                assert(next@.cells.take(len as int) =~= base);
                                assert(c[len as int] == c.take(len + 1)[len as int]);
                                if i < old(found)@.len() {
                                    assert(views(found@)[i] == views(old(found)@)[i]);
                                }
                            }
                        }
                    }
                    grow(board, k, &next, found);
                    proof {
                        assert forall|i: int|
                            old(found)@.len() <= i < found@.len() implies begins_with(
                            (#[trigger] views(found@)[i]).cells,
                            base,
                        ) && views(found@)[i].cells.len() > len && (before(
                            views(found@)[i].cells[len as int],
                            cursor,
                        ) || views(found@)[i].cells[len as int] == cursor) by {
                            let c = views(found@)[i].cells;
                            if i < had.len() {
                                assert(views(found@)[i] == had[i]);
                            } else {
                                assert(begins_with(c, next@.cells));
                                assert(c.take(len as int) =~= next@.cells.take(len as int));
                                assert(next@.cells.take(len as int) =~= base);
                                assert(c[len as int] == c.take(len + 1)[len as int]);
                            }
                        }
                        assert forall|i: int| 0 <= i < old(found)@.len() implies #[trigger] views(
                            found@,
                        )[i] == views(old(found)@)[i] by {
                            assert(views(found@)[i] == had[i]);
                        }
                        assert forall|p: GroupView| #[trigger]
                            board@.is_naked(k as int, p) && p.cells.take(len as int) == base
                                && p.cells[len as int] == cursor implies
                                    views(found@).contains(p) by {
                            assert(p.cells.take(len + 1) =~= base.push(cursor));
                        }
                    }
                }
            } else {
                proof {
                    lemma_ops();
                    assert forall|p: GroupView| #[trigger]
                        board@.is_naked(k as int, p) && p.cells.take(len as int) == base
                            && p.cells[len as int] == cursor implies false by {
                        assert forall|d: u16| d < 16 && offers(next@.vals, d) implies offers(
                            p.vals,
                            d,
                        ) by {
                            if offers(prefix@.vals, d) {
                                let i = choose|i: int| 0 <= i < base.len()
                                    && offers(board@.at(#[trigger] base[i]), d);
                                assert(p.cells.take(len as int)[i] == p.cells[i]);
                                assert(offers(board@.at(p.cells[i]), d));
                            } else {
                                assert(offers(board@.at(p.cells[len as int]), d));
                            }
                        }
                        lemma_within_by_offers(next@.vals, p.vals);
                        lemma_count_within(next@.vals, p.vals);
                    }
                }
            }
        }
        cursor = next_cell(cursor, n);
    }
    proof {
        assert forall|p: GroupView| #[trigger]
            board@.is_naked(k as int, p) && p.cells.take(len as int) == base implies views(
            found@,
        ).contains(p) by {
            assert(board@.holds(p.cells[len as int]));
            assert(before(p.cells[len as int], cursor));
        }
    }
}

/// The naked subsets of size `k` of the board.
pub fn from_board_sized(board: &Board, k: usize) -> (found: Vec<Group>)
    requires
        board@.shaped(),
        1 <= k,
    ensures
        forall|p: GroupView| #[trigger] views(found@).contains(p) <==> board@.is_naked(k as int, p),
        no_two_alike(views(found@)),
{
    let mut found: Vec<Group> = Vec::new();
    let start = Group::empty();
    proof {
        lemma_bit();
    }
    grow(board, k, &start, &mut found);
    proof {
        assert forall|p: GroupView| #[trigger] board@.is_naked(k as int, p) implies views(
            found@,
        ).contains(p) by {
            assert(p.cells.take(0) =~= start@.cells);
        }
    }
    found
}

/// The naked pairs of the board.
pub fn from_board2(board: &Board) -> (found: Vec<Group>)
    requires
        board@.shaped(),
    ensures
        forall|p: GroupView| #[trigger] views(found@).contains(p) <==> board@.is_naked(2, p),
{
    from_board_sized(board, 2)
}

/// The naked triples of the board.
pub fn from_board3(board: &Board) -> (found: Vec<Group>)
    requires
        board@.shaped(),
    ensures
        forall|p: GroupView| #[trigger] views(found@).contains(p) <==> board@.is_naked(3, p),
{
    from_board_sized(board, 3)
}

/// The naked quads of the board.
pub fn from_board4(board: &Board) -> (found: Vec<Group>)
    requires
        board@.shaped(),
    ensures
        forall|p: GroupView| #[trigger] views(found@).contains(p) <==> board@.is_naked(4, p),
{
    from_board_sized(board, 4)
}

} // verus!
