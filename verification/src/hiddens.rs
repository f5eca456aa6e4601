//! Hidden subsets: within one unit, `k` open cells are the only ones that
//! still offer some `k` digits, so they can hold nothing else.

use vstd::prelude::*;
use crate::bits::{
    count, count_ones, is_single, lemma_bit, lemma_mask_ext, lemma_ops, offers, single,
};
use crate::board::{Board, Cell};
use crate::defaults::default_cell;
use crate::findings::{record, views};
use crate::grid::Grid;
use crate::misc::{unit_cells, units, Unit};

verus! {

/// `cells` are the only cells of some unit that still offer the digits `vals`.
#[derive(Debug, Clone)]
pub struct Group {
    pub cells: Vec<Cell>,
    pub vals: u16,
}

/// What a `Group` holds.
pub struct GroupView {
    pub cells: Seq<Cell>,
    pub vals: u16,
}

impl View for Group {
    type V = GroupView;

    open spec fn view(&self) -> GroupView {
        GroupView { cells: self.cells@, vals: self.vals }
    }
}

/// The positions grow from left to right and lie below `len`.
pub open spec fn ascending(idx: Seq<usize>, len: int) -> bool {
    &&& forall|i: int, j: int| 0 <= i < j < idx.len() ==> idx[i] < idx[j]
    &&& forall|i: int| 0 <= i < idx.len() ==> idx[i] < len
}

impl Grid {
    /// Some cell of the unit at a position that is not in `idx` offers `d`.
    pub open spec fn outside_offers(self, u: Unit, idx: Seq<usize>, d: u16) -> bool {
        exists|t: int|
            0 <= t < self.unit_cells(u).len() && !idx.contains(t as usize) && offers(
                self.at(#[trigger] self.unit_cells(u)[t]),
                d,
            )
    }

    /// `p` is the hidden subset of size `k` at the positions `idx` of the
    /// unit `u`: its cells are open, and its digits are those of the grid
    /// that no other cell of the unit offers, exactly `k` of them.
    pub open spec fn hidden_at(self, k: int, u: Unit, idx: Seq<usize>, p: GroupView) -> bool {
        &&& self.valid_unit(u)
        &&& idx.len() == k
        &&& ascending(idx, self.unit_cells(u).len() as int)
        &&& p.cells.len() == k
        &&& forall|i: int|
            0 <= i < k ==> #[trigger] p.cells[i] == self.unit_cells(u)[idx[i] as int] && !single(
                self.at(p.cells[i]),
            )
        &&& forall|d: u16|
            offers(p.vals, d) == (1 <= d <= self.size() && !self.outside_offers(u, idx, d))
        &&& count(p.vals) == k
    }

    /// `p` is a hidden subset of size `k` of some unit.
    pub open spec fn is_hidden(self, k: int, p: GroupView) -> bool {
        exists|u: Unit, idx: Seq<usize>| self.hidden_at(k, u, idx, p)
    }
}

/// The positions fix the subset.
pub proof fn lemma_hidden_at_unique(
    g: Grid,
    k: int,
    u: Unit,
    idx: Seq<usize>,
    p: GroupView,
    q: GroupView,
)
    requires
        g.hidden_at(k, u, idx, p),
        g.hidden_at(k, u, idx, q),
    ensures
        p == q,
{
    assert(p.cells =~= q.cells);
    lemma_mask_ext(p.vals, q.vals);
}

/// The cells of a hidden subset lie on the grid.
pub proof fn lemma_hidden_on_grid(g: Grid, k: int, p: GroupView)
    requires
        g.shaped(),
        g.is_hidden(k, p),
    ensures
        p.cells.len() == k,
        forall|t: int| 0 <= t < p.cells.len() ==> g.holds(#[trigger] p.cells[t]),
{
    let (u, idx) = choose|u: Unit, idx: Seq<usize>| g.hidden_at(k, u, idx, p);
    assert forall|t: int| 0 <= t < p.cells.len() implies g.holds(#[trigger] p.cells[t]) by {
        assert(p.cells[t] == g.unit_cells(u)[idx[t] as int]);
        crate::misc::lemma_unit_on_grid(g, u, idx[t] as int);
    }
}

impl Board {
    /// Whether none of the cells is solved.
    pub fn no_known(&self, cells: &[Cell]) -> (r: bool)
        requires
            self@.shaped(),
            forall|i: int| 0 <= i < cells@.len() ==> self@.holds(#[trigger] cells@[i]),
        ensures
            r == forall|i: int| 0 <= i < cells@.len() ==> !single(self@.at(#[trigger] cells@[i])),
    {
        let mut i: usize = 0;
        while i < cells.len()
            invariant
                self@.shaped(),
                i <= cells.len(),
                forall|j: int| 0 <= j < cells@.len() ==> self@.holds(#[trigger] cells@[j]),
                forall|j: int| 0 <= j < i ==> !single(self@.at(#[trigger] cells@[j])),
            decreases cells.len() - i,
        {
            if is_single(self.mask(cells[i])) {
                return false;
            }
            i += 1;
        }
        true
    }
}

fn is_chosen(chosen: &Vec<usize>, t: usize) -> (r: bool)
    ensures
        r == chosen@.contains(t),
{
    crate::board::listed(chosen.as_slice(), t)
}

/// The digits of the grid that no cell of the unit outside `chosen` offers.
fn free_digits(board: &Board, Ghost(u): Ghost<Unit>, uc: &Vec<Cell>, chosen: &Vec<usize>) -> (m:
    u16)
    requires
        board@.shaped(),
        board@.valid_unit(u),
        uc@ == board@.unit_cells(u),
        forall|i: int| 0 <= i < uc.len() ==> board@.holds(#[trigger] uc[i]),
    ensures
        forall|d: u16|
            offers(m, d) == (1 <= d <= board@.size() && !board@.outside_offers(u, chosen@, d)),
{
    let mut others: u16 = 0;
    let mut t: usize = 0;
    proof {
        lemma_bit();
    }
    while t < uc.len()
        invariant
            board@.shaped(),
            uc@ == board@.unit_cells(u),
            forall|i: int| 0 <= i < uc.len() ==> board@.holds(#[trigger] uc[i]),
            t <= uc.len(),
            forall|d: u16|
                offers(others, d) == exists|s: int|
                    0 <= s < t && !chosen@.contains(s as usize) && offers(
                        board@.at(#[trigger] uc@[s]),
                        d,
                    ),
        decreases uc.len() - t,
    {
        if !is_chosen(chosen, t) {
            let m: u16 = board.mask(uc[t]);
            proof {
                lemma_ops();
            }
            others = others | m;
        }
        t += 1;
    }
    let full: u16 = default_cell(board.size());
    proof {
        lemma_ops();
    }
    !others & full
}

/// Adds to `found` every hidden subset of size `k` of the unit whose
/// positions start with `chosen`.
fn extend(
    board: &Board,
    Ghost(u): Ghost<Unit>,
    uc: &Vec<Cell>,
    k: usize,
    chosen: &mut Vec<usize>,
    found: &mut Vec<Group>,
)
    requires
        board@.shaped(),
        board@.valid_unit(u),
        uc@ == board@.unit_cells(u),
        forall|i: int| 0 <= i < uc.len() ==> board@.holds(#[trigger] uc[i]),
        old(chosen).len() <= k,
        ascending(old(chosen)@, uc.len() as int),
        forall|i: int|
            0 <= i < old(chosen).len() ==> !single(board@.at(uc[#[trigger] old(chosen)[i] as int])),
    ensures
        final(chosen)@ == old(chosen)@,
        forall|p: GroupView| #[trigger]
            views(old(found)@).contains(p) ==> views(final(found)@).contains(p),
        forall|p: GroupView| #[trigger]
            views(final(found)@).contains(p) ==> views(old(found)@).contains(p) || board@.is_hidden(
                k as int,
                p,
            ),
        forall|p: GroupView, idx: Seq<usize>| #[trigger]
            board@.hidden_at(k as int, u, idx, p)
                && idx.take(old(chosen).len() as int) == old(chosen)@
                ==> views(final(found)@).contains(p),
    decreases k - old(chosen).len(),
{
    let len: usize = chosen.len();
    if len == k {
        let vals: u16 = free_digits(board, Ghost(u), uc, chosen);
        if count_ones(vals) as usize == k {
            let mut cells: Vec<Cell> = Vec::new();
            let mut j: usize = 0;
            while j < k
                invariant
                    j <= k,
                    chosen.len() == k,
                    ascending(chosen@, uc.len() as int),
                    cells.len() == j,
                    forall|i: int| 0 <= i < j ==> #[trigger] cells[i] == uc[chosen[i] as int],
                decreases k - j,
            {
                cells.push(uc[chosen[j]]);
                j += 1;
            }
            let group = Group { cells, vals };
            proof {
                assert(board@.hidden_at(k as int, u, chosen@, group@));
                assert forall|p: GroupView, idx: Seq<usize>| #[trigger]
                    board@.hidden_at(k as int, u, idx, p) && idx.take(len as int) == chosen@ implies
                        p
                    == group@ by {
                    assert(idx.take(len as int) =~= idx);
                    lemma_hidden_at_unique(board@, k as int, u, idx, p, group@);
                }
            }
            record(found, group);
        } else {
            proof {
                assert forall|p: GroupView, idx: Seq<usize>| #[trigger]
                    board@.hidden_at(k as int, u, idx, p) && idx.take(len as int)
                        == chosen@ implies false by {
                    assert(idx.take(len as int) =~= idx);
                    lemma_mask_ext(p.vals, vals);
                }
            }
        }
        return ;
    }
    let mut t: usize = if len == 0 {
        0
    } else {
        chosen[len - 1] + 1
    };
    while t < uc.len()
        invariant
            board@.shaped(),
            board@.valid_unit(u),
            uc@ == board@.unit_cells(u),
            forall|i: int| 0 <= i < uc.len() ==> board@.holds(#[trigger] uc[i]),
            len < k,
            chosen@ == old(chosen)@,
            chosen.len() == len,
            ascending(chosen@, uc.len() as int),
            forall|i: int| 0 <= i < len ==> !single(board@.at(uc[#[trigger] chosen[i] as int])),
            t <= uc.len(),
            len > 0 ==> t > chosen[len - 1],
            forall|p: GroupView| #[trigger]
                views(old(found)@).contains(p) ==> views(found@).contains(p),
            forall|p: GroupView| #[trigger]
                views(found@).contains(p) ==> views(old(found)@).contains(p) || board@.is_hidden(
                    k as int,
                    p,
                ),
            forall|p: GroupView, idx: Seq<usize>| #[trigger]
                board@.hidden_at(k as int, u, idx, p) && idx.take(len as int) == chosen@
                    && idx[len as int] < t
                    ==> views(found@).contains(p),
        decreases uc.len() - t,
    {
        let ghost base = chosen@;
        if !is_single(board.mask(uc[t])) {
            chosen.push(t);
            proof {
                assert forall|i: int| 0 <= i < chosen.len() implies !single(
                    board@.at(uc[#[trigger] chosen[i] as int]),
                ) by {
                    if i < len {
                        assert(chosen[i] == base[i]);
                    }
                }
            }
            extend(board, Ghost(u), uc, k, chosen, found);
            chosen.pop();
            proof {
                assert(chosen@ =~= base);
                assert forall|p: GroupView, idx: Seq<usize>| #[trigger]
                    board@.hidden_at(k as int, u, idx, p) && idx.take(len as int) == base
                        && idx[len as int]
                        == t implies views(found@).contains(p) by {
                    assert(idx.take(len + 1) =~= base.push(t));
                }
            }
        } else {
            proof {
                assert forall|p: GroupView, idx: Seq<usize>| #[trigger]
                    board@.hidden_at(k as int, u, idx, p) && idx.take(len as int) == base
                        && idx[len as int]
                        == t implies false by {
                    assert(p.cells[len as int] == uc[t as int]);
                }
            }
        }
        t += 1;
    }
    proof {
        assert forall|p: GroupView, idx: Seq<usize>| #[trigger]
            board@.hidden_at(k as int, u, idx, p) && idx.take(len as int) == chosen@ implies views(
            found@,
        ).contains(p) by {
            assert(idx[len as int] < uc.len());
        }
    }
}

/// The hidden subsets of size `k` of the board, unit by unit.
pub fn from_board_sized(board: &Board, k: usize) -> (found: Vec<Group>)
    requires
        board@.shaped(),
    ensures
        forall|p: GroupView|
            #[trigger] views(found@).contains(p) <==> board@.is_hidden(k as int, p),
{
    let all = units(board);
    let mut found: Vec<Group> = Vec::new();
    let mut i: usize = 0;
    while i < all.len()
        invariant
            board@.shaped(),
            all@ == board@.all_units(),
            forall|j: int| 0 <= j < all.len() ==> board@.valid_unit(#[trigger] all[j]),
            i <= all.len(),
            forall|p: GroupView| #[trigger]
                views(found@).contains(p) ==> board@.is_hidden(k as int, p),
            forall|p: GroupView, idx: Seq<usize>, j: int| #[trigger]
                board@.hidden_at(k as int, all[j], idx, p) && 0 <= j < i ==>
                    views(found@).contains(p),
        decreases all.len() - i,
    {
        let unit: Unit = all[i];
        let uc = unit_cells(board, unit);
        let mut chosen: Vec<usize> = Vec::new();
        extend(board, Ghost(unit), &uc, k, &mut chosen, &mut found);
        proof {
            assert forall|p: GroupView, idx: Seq<usize>| #[trigger]
                board@.hidden_at(k as int, unit, idx, p) implies views(found@).contains(p) by {
                assert(idx.take(0) =~= Seq::<usize>::empty());
            }
        }
        i += 1;
    }
    proof {
        assert forall|p: GroupView| board@.is_hidden(k as int, p) implies #[trigger] views(
            found@,
        ).contains(p) by {
            let (u, idx) = choose|u: Unit, idx: Seq<usize>| board@.hidden_at(k as int, u, idx, p);
            let j = crate::misc::lemma_unit_listed(board@, u);
            assert(board@.hidden_at(k as int, all[j], idx, p));
        }
    }
    found
}

/// The hidden pairs of the board.
pub fn from_board2(board: &Board) -> (found: Vec<Group>)
    requires
        board@.shaped(),
    ensures
        forall|p: GroupView| #[trigger] views(found@).contains(p) <==> board@.is_hidden(2, p),
{
    from_board_sized(board, 2)
}

/// The hidden triples of the board.
pub fn from_board3(board: &Board) -> (found: Vec<Group>)
    requires
        board@.shaped(),
    ensures
        forall|p: GroupView| #[trigger] views(found@).contains(p) <==> board@.is_hidden(3, p),
{
    from_board_sized(board, 3)
}

/// The hidden quads of the board.
pub fn from_board4(board: &Board) -> (found: Vec<Group>)
    requires
        board@.shaped(),
    ensures
        forall|p: GroupView| #[trigger] views(found@).contains(p) <==> board@.is_hidden(4, p),
{
    from_board_sized(board, 4)
}

} // verus!
