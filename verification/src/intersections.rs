//! Intersections (pointing pairs, box-line reduction): where every cell of
//! one unit that offers a digit lies in a second unit too, the digit can be
//! struck from the rest of the second unit.

use vstd::prelude::*;
use crate::bits::{is_set, is_single, offers, single};
use crate::board::{listed_cell, Board, Cell, Region};
use crate::findings::{record, views};
use crate::grid::Grid;
use crate::misc::{lemma_unit_listed, lemma_unit_on_grid, unit_cells, units, Unit};

verus! {

/// A digit and two units: where the digit is looked for, and where it is struck.
#[derive(Debug, Clone, Copy)]
pub struct Intersection {
    origin: Unit,
    target: Unit,
    val: u16,
}

/// The cells from which a digit is to be struck.
#[derive(Debug, Clone)]
pub struct IntersectionTarget {
    pub cells: Region,
    pub val: u16,
}

/// What an `IntersectionTarget` holds.
pub struct TargetView {
    pub cells: Seq<Cell>,
    pub val: u16,
}

impl View for IntersectionTarget {
    type V = TargetView;

    open spec fn view(&self) -> TargetView {
        TargetView { cells: self.cells@, val: self.val }
    }
}

/// The cells of `target` that are not in `origin`, in their order.
pub open spec fn outside(target: Seq<Cell>, origin: Seq<Cell>) -> Seq<Cell> {
    target.filter(|c: Cell| !origin.contains(c))
}

/// The pairs of units that are looked at: two different units, one of them a region.
pub open spec fn eligible(origin: Unit, target: Unit) -> bool {
    origin != target && (origin is Reg || target is Reg)
}

impl Grid {
    /// Every cell of `origin` that offers `val` lies in `target` too, and
    /// the cells that both units hold are all open.
    pub open spec fn confines(self, origin: Unit, target: Unit, val: u16) -> bool {
        &&& forall|i: int|
            0 <= i < self.unit_cells(origin).len() && self.unit_cells(target).contains(
                self.unit_cells(origin)[i],
            ) ==> !single(self.at(#[trigger] self.unit_cells(origin)[i]))
        &&& forall|i: int|
            0 <= i < self.unit_cells(origin).len() && !self.unit_cells(target).contains(
                self.unit_cells(origin)[i],
            ) ==> !offers(self.at(#[trigger] self.unit_cells(origin)[i]), val)
    }

    /// `t` is what the intersection of `origin` and `target` yields for its digit.
    pub open spec fn intersection_at(self, origin: Unit, target: Unit, t: TargetView) -> bool {
        &&& self.valid_unit(origin)
        &&& self.valid_unit(target)
        &&& eligible(origin, target)
        &&& 1 <= t.val <= self.size()
        &&& self.confines(origin, target, t.val)
        &&& t.cells == outside(self.unit_cells(target), self.unit_cells(origin))
    }

    /// `t` is what some intersection yields.
    pub open spec fn is_intersection(self, t: TargetView) -> bool {
        exists|origin: Unit, target: Unit| self.intersection_at(origin, target, t)
    }
}

/// What `outside` holds: the cells of the one list that are not in the other.
pub proof fn lemma_outside(target: Seq<Cell>, origin: Seq<Cell>, c: Cell)
    ensures
        outside(target, origin).contains(c) <==> target.contains(c) && !origin.contains(c),
    decreases target.len(),
{
    reveal(Seq::filter);
    let pred = |c: Cell| !origin.contains(c);
    if target.len() > 0 {
        let rest = target.drop_last();
        let last = target.last();
        lemma_outside(rest, origin, c);
        let sub = rest.filter(pred);
        if target.contains(c) {
            let i = choose|i: int| 0 <= i < target.len() && target[i] == c;
            if i < rest.len() {
                assert(rest[i] == c);
            }
        }
        if rest.contains(c) {
            let i = choose|i: int| 0 <= i < rest.len() && rest[i] == c;
            assert(target[i] == c);
        }
        if pred(last) {
            assert(target.filter(pred) == sub.push(last));
            if sub.contains(c) {
                let i = choose|i: int| 0 <= i < sub.len() && sub[i] == c;
                assert(sub.push(last)[i] == c);
            }
            if c == last {
                assert(sub.push(last)[sub.len() as int] == c);
                assert(target[target.len() - 1] == c);
            }
            if sub.push(last).contains(c) {
                let i = choose|i: int| 0 <= i < sub.push(last).len() && sub.push(last)[i] == c;
                if i < sub.len() {
                    assert(sub[i] == c);
                }
            }
        } else {
            assert(target.filter(pred) == sub);
        }
    }
}

/// The cells of `target` that are not among `origin`.
fn cells_outside(target: &Vec<Cell>, origin: &Vec<Cell>) -> (r: Vec<Cell>)
    ensures
        r@ == outside(target@, origin@),
{
    let mut out: Vec<Cell> = Vec::new();
    let mut i: usize = 0;
    let ghost pred = |c: Cell| !origin@.contains(c);
    proof {
        reveal(Seq::filter);
        assert(target@.take(0).filter(pred) =~= Seq::<Cell>::empty());
    }
    while i < target.len()
        invariant
            i <= target.len(),
            pred == |c: Cell| !origin@.contains(c),
            out@ == target@.take(i as int).filter(pred),
        decreases target.len() - i,
    {
        proof {
            reveal(Seq::filter);
            assert(target@.take(i + 1).drop_last() =~= target@.take(i as int));
            assert(target@.take(i + 1).last() == target@[i as int]);
        }
        if !listed_cell(origin.as_slice(), target[i]) {
            out.push(target[i]);
        }
        i += 1;
    }
    assert(target@.take(target.len() as int) =~= target@);
    out
}

impl Intersection {
    /// The intersection of two units of the board for a digit.
    pub fn new(origin: Unit, target: Unit, val: u16) -> (r: Intersection)
        ensures
            r.parts() == (origin, target, val),
    {
        Intersection { origin, target, val }
    }

    /// The two units and the digit.
    pub closed spec fn parts(self) -> (Unit, Unit, u16) {
        (self.origin, self.target, self.val)
    }

    /// The cells of the target from which the digit is to be struck, if the
    /// origin confines the digit to the target.
    pub fn is_valid(&self, board: &Board) -> (r: Option<IntersectionTarget>)
        requires
            board@.shaped(),
            board@.valid_unit(self.parts().0),
            board@.valid_unit(self.parts().1),
            self.parts().2 < 16,
        ensures
            (r is Some) == board@.confines(self.parts().0, self.parts().1, self.parts().2),
            r matches Some(t) ==> t@ == (TargetView {
                cells: outside(
                    board@.unit_cells(self.parts().1),
                    board@.unit_cells(self.parts().0),
                ),
                val: self.parts().2,
            }),
    {
        let origin_cells = unit_cells(board, self.origin);
        let target_cells = unit_cells(board, self.target);
        let mut i: usize = 0;
        while i < origin_cells.len()
            invariant
                board@.shaped(),
                self.val < 16,
                origin_cells@ == board@.unit_cells(self.origin),
                target_cells@ == board@.unit_cells(self.target),
                forall|j: int|
                    0 <= j < origin_cells.len() ==> board@.holds(#[trigger] origin_cells[j]),
                i <= origin_cells.len(),
                forall|j: int|
                    0 <= j < i && target_cells@.contains(origin_cells@[j]) ==> !single(
                        board@.at(#[trigger] origin_cells@[j]),
                    ),
                forall|j: int|
                    0 <= j < i && !target_cells@.contains(origin_cells@[j]) ==> !offers(
                        board@.at(#[trigger] origin_cells@[j]),
                        self.val,
                    ),
            decreases origin_cells.len() - i,
        {
            let cell: Cell = origin_cells[i];
            let m: u16 = board.mask(cell);
            if listed_cell(target_cells.as_slice(), cell) {
                if is_single(m) {
                    return None;
                }
            } else if is_set(m, self.val) {
                return None;
            }
            i += 1;
        }
        Some(
            IntersectionTarget { cells: cells_outside(&target_cells, &origin_cells), val: self.val }
        )
    }
}

/// Adds to `found` what the intersection of the two units yields, digit by digit.
fn scan_units(board: &Board, origin: Unit, target: Unit, found: &mut Vec<IntersectionTarget>)
    requires
        board@.shaped(),
        board@.valid_unit(origin),
        board@.valid_unit(target),
    ensures
        forall|t: TargetView|
            #[trigger] views(old(found)@).contains(t) ==> views(final(found)@).contains(t),
        forall|t: TargetView| #[trigger]
            views(final(found)@).contains(t) ==>
                views(old(found)@).contains(t) || board@.is_intersection(t),
        forall|t: TargetView| #[trigger]
            board@.intersection_at(origin, target, t) ==> views(final(found)@).contains(t),
{
    let eligible_pair = match origin {
        Unit::Reg(a) => match target {
            Unit::Reg(b) => a != b,
            _ => true,
        },
        Unit::Row(_) => match target {
            Unit::Reg(_) => true,
            _ => false,
        },
        Unit::Col(_) => match target {
            Unit::Reg(_) => true,
            _ => false,
        },
    };
    assert(eligible_pair == eligible(origin, target));
    if !eligible_pair {
        return ;
    }
    let n: usize = board.size();
    let mut d: u16 = 1;
    while d as usize <= n
        invariant
            board@.shaped(),
            n == board@.size(),
            board@.valid_unit(origin),
            board@.valid_unit(target),
            eligible(origin, target),
            1 <= d <= n + 1,
            forall|t: TargetView|
                #[trigger] views(old(found)@).contains(t) ==> views(found@).contains(t),
            forall|t: TargetView| #[trigger]
                views(found@).contains(t) ==>
                    views(old(found)@).contains(t) || board@.is_intersection(t),
            forall|t: TargetView| #[trigger]
                board@.intersection_at(origin, target, t) && t.val < d ==>
                    views(found@).contains(t),
        decreases n + 1 - d,
    {
        match Intersection::new(origin, target, d).is_valid(board) {
            Some(t) => {
                proof {
                    assert(board@.intersection_at(origin, target, t@));
                    assert forall|x: TargetView| #[trigger]
                        board@.intersection_at(origin, target, x) && x.val == d implies
                            x == t@ by {}
                }
                record(found, t);
            },
            None => {},
        }
        d += 1;
    }
}

/// What the intersections of the board yield.
pub fn from_board(board: &Board) -> (found: Vec<IntersectionTarget>)
    requires
        board@.shaped(),
    ensures
        forall|t: TargetView| #[trigger] views(found@).contains(t) <==> board@.is_intersection(t),
{
    let all = units(board);
    let mut found: Vec<IntersectionTarget> = Vec::new();
    let mut a: usize = 0;
    while a < all.len()
        invariant
            board@.shaped(),
            all@ == board@.all_units(),
            forall|k: int| 0 <= k < all.len() ==> board@.valid_unit(#[trigger] all[k]),
            a <= all.len(),
            forall|t: TargetView|
                #[trigger] views(found@).contains(t) ==> board@.is_intersection(t),
            forall|t: TargetView, i: int, j: int| #[trigger]
                board@.intersection_at(all[i], all[j], t) && 0 <= i < a && 0 <= j < all.len() ==>
                    views(
                    found@,
                ).contains(t),
        decreases all.len() - a,
    {
        let mut b: usize = 0;
        let ghost entry = views(found@);
        while b < all.len()
            invariant
                board@.shaped(),
                forall|k: int| 0 <= k < all.len() ==> board@.valid_unit(#[trigger] all[k]),
                a < all.len(),
                b <= all.len(),
                forall|t: TargetView| #[trigger] entry.contains(t) ==> views(found@).contains(t),
                forall|t: TargetView|
                    #[trigger] views(found@).contains(t) ==> board@.is_intersection(t),
                forall|t: TargetView, j: int| #[trigger]
                    board@.intersection_at(all[a as int], all[j], t) && 0 <= j < b ==> views(
                        found@,
                    ).contains(t),
            decreases all.len() - b,
        {
            let ghost had = views(found@);
            scan_units(board, all[a], all[b], &mut found);
            proof {
                assert forall|t: TargetView, j: int| #[trigger]
                    board@.intersection_at(all[a as int], all[j], t) && 0 <= j < b + 1 implies
                        views(
                    found@,
                ).contains(t) by {
                    if j < b {
                        assert(had.contains(t));
                    }
                }
            }
            b += 1;
        }
        proof {
            assert forall|t: TargetView, i: int, j: int| #[trigger]
                board@.intersection_at(all[i], all[j], t) && 0 <= i < a + 1
                    && 0 <= j < all.len() implies
                    views(
                found@,
            ).contains(t) by {
                if i < a {
                    assert(entry.contains(t));
                }
            }
        }
        a += 1;
    }
    proof {
        assert forall|t: TargetView| #[trigger] board@.is_intersection(t) implies
            views(found@).contains(
            t,
        ) by {
            let (origin, target) = choose|origin: Unit, target: Unit|
                board@.intersection_at(origin, target, t);
            let i = lemma_unit_listed(board@, origin);
            let j = lemma_unit_listed(board@, target);
            assert(board@.intersection_at(all[i], all[j], t));
        }
    }
    found
}

/// The cells that an intersection yields lie on the grid.
pub proof fn lemma_intersection_on_grid(g: Grid, t: TargetView)
    requires
        g.shaped(),
        g.is_intersection(t),
    ensures
        1 <= t.val <= g.size(),
        forall|i: int| 0 <= i < t.cells.len() ==> g.holds(#[trigger] t.cells[i]),
{
    let (origin, target) = choose|origin: Unit, target: Unit| g.intersection_at(origin, target, t);
    assert forall|i: int| 0 <= i < t.cells.len() implies g.holds(#[trigger] t.cells[i]) by {
        let c = t.cells[i];
        assert(t.cells.contains(c));
        lemma_outside(g.unit_cells(target), g.unit_cells(origin), c);
        let k = choose|k: int| 0 <= k < g.unit_cells(target).len() && g.unit_cells(target)[k] == c;
        lemma_unit_on_grid(g, target, k);
    }
}

} // verus!
