//! Applying findings to the board: a run of cascades, one per strike or per
//! unit, is one cascade for all the strikes together.

use vstd::prelude::*;
use crate::bits::{count, is_set, lemma_bit, offers};
use crate::board::{Board, Cell, Contradiction};
use crate::grid::{
    lemma_admits_consistent, lemma_admits_self, lemma_cascades_failed, lemma_cascades_same,
    lemma_cascades_then, lemma_refines_equal, lemma_weight_refines, Grid, Strike,
};
use crate::grid::{col_strikes, row_strikes};
use crate::hiddens::{from_board_sized, Group, GroupView};
use crate::nakeds;
use crate::groups;
use crate::xwings::{fish, Fish, FishView};
use crate::intersections;
use crate::intersections::{lemma_intersection_on_grid, IntersectionTarget, TargetView};
use crate::colouring;
use crate::colouring::{lemma_pair_nodes, lemma_unit_sees, Candidate};
use crate::misc::Unit;
use crate::ywings;
use crate::ywings::YWing;
use crate::findings::views;

verus! {

/// Where a run of cascades stands: from `start` it has struck `done`, all of
/// them among `target`, has reached `cur`, and `changed` says whether that differs.
pub open spec fn progress(
    start: Grid,
    target: Set<Strike>,
    done: Set<Strike>,
    cur: Grid,
    changed: bool,
) -> bool {
    &&& start.wf()
    &&& cur.wf()
    &&& start.cascades(done, true, cur)
    &&& done.subset_of(target)
    &&& changed == (cur != start)
}

/// A run that has struck nothing yet.
pub proof fn lemma_progress_start(start: Grid, target: Set<Strike>)
    requires
        start.wf(),
    ensures
        progress(start, target, Set::empty(), start, false),
{
    lemma_admits_self(start, Set::<Strike>::empty());
}

/// One more cascade, for strikes among the target.
pub proof fn lemma_progress_step(
    start: Grid,
    target: Set<Strike>,
    done: Set<Strike>,
    before: Grid,
    changed: bool,
    step: Set<Strike>,
    ok: bool,
    after: Grid,
    ch: bool,
)
    requires
        progress(start, target, done, before, changed),
        before.cascades(step, ok, after),
        step.subset_of(target),
        ok ==> ch == (after != before),
    ensures
        ok ==> progress(start, target, done + step, after, changed || ch),
        !ok ==> start.cascades(target, false, after),
        after.weight() <= start.weight(),
{
    lemma_cascades_then(start, done, before, step, ok, after);
    lemma_weight_refines(after, start);
    if !ok {
        lemma_cascades_failed(start, done + step, target, after);
    } else {
        if after == start {
            lemma_refines_equal(before, after);
        }
    }
}

/// The run has struck all of the target that lies on the grid.
pub proof fn lemma_progress_done(
    start: Grid,
    target: Set<Strike>,
    done: Set<Strike>,
    cur: Grid,
    changed: bool,
)
    requires
        progress(start, target, done, cur, changed),
        forall|c: Cell, v: u16|
            start.holds(c) && #[trigger] target.contains((c, v)) ==> done.contains((c, v)),
    ensures
        start.cascades(target, true, cur),
        start.consistent() ==> cur.consistent(),
{
    lemma_cascades_same(start, done, target, true, cur);
    if start.consistent() {
        lemma_admits_consistent(start, target, cur);
    }
}

/// Where the graph of candidates cannot be coloured, what colouring asks
/// for cannot be had.
pub proof fn lemma_uncolourable(g: Grid)
    requires
        g.wf(),
        forall|t: Set<Candidate>| !g.colouring(t),
    ensures
        g.cascades(g.colouring_strikes(), false, g),
{
    crate::bits::lemma_within();
    crate::bits::lemma_bit();
    let target = g.colouring_strikes();
    if forall|x: Candidate| !g.is_node(x) {
        let none = Set::<Candidate>::empty();
        assert forall|x: Candidate, y: Candidate| #[trigger] g.paired(x, y) implies none.contains(x)
            || none.contains(y) by {
            lemma_pair_nodes(g, x, y);
        }
        assert(g.colouring(none));
    }
    let x = choose|x: Candidate| g.is_node(x);
    let c = x.0;
    let v = x.1;
    assert(g.always_true(x));
    let other: Candidate = if count(g.at(c)) == 2 {
        let w = crate::bits::lemma_count_two(g.at(c), v);
        (c, w)
    } else {
        let b = choose|b: Cell| g.conjugate(c, b, v);
        lemma_pair_nodes(g, x, (b, v));
        let u = choose|u: Unit| g.alone_in(u, c, b, v);
        lemma_unit_sees(g, u, b, c);
        (b, v)
    };
    assert(g.always_true(other));
    assert(g.place_strikes(other.0, other.1).contains((c, v)));
    assert(target.contains((c, v)));
    assert forall|y: Grid| #[trigger] g.admits(target, y) implies false by {
        assert forall|d: u16| d < 16 implies offers(y.at(c), d) == offers(0u16, d) by {
            if d != v {
                assert(g.place_strikes(c, v).contains((c, d)));
                assert(target.contains((c, d)));
            }
        }
        crate::bits::lemma_mask_ext(y.at(c), 0);
    }
}

/// The strikes that a hidden subset asks for: in its cells, every digit but its own.
pub open spec fn hidden_group_strikes(p: GroupView) -> Set<Strike> {
    Set::new(|e: Strike| p.cells.contains(e.0) && e.1 < 16 && !offers(p.vals, e.1))
}

/// The strikes that a fish asks for: its digit, in its rows outside its
/// columns where the rows are to be cleared, else in its columns outside its rows.
pub open spec fn fish_strikes_of(p: FishView) -> Set<Strike> {
    Set::new(
        |e: Strike|
            e.1 == p.val && (if p.clear_rows {
                p.rows.contains(e.0.row) && !p.cols.contains(e.0.col)
            } else {
                p.cols.contains(e.0.col) && !p.rows.contains(e.0.row)
            }),
    )
}

impl Grid {
    /// The strikes that the fish of size `s` ask for.
    pub open spec fn fish_strikes(self, s: int) -> Set<Strike> {
        Set::new(
            |e: Strike|
                exists|p: FishView| #[trigger] self.is_fish(s, p) && fish_strikes_of(p).contains(e),
        )
    }

    /// The strikes that the Y-wings ask for: the shared digit in each target.
    pub open spec fn ywing_strikes(self) -> Set<Strike> {
        Set::new(|e: Strike| exists|y: YWing| #[trigger] self.is_ywing(y) && e == (y.target, y.val))
    }

    /// The strikes that the intersections ask for: the digit in each cell that one yields.
    pub open spec fn intersection_strikes(self) -> Set<Strike> {
        Set::new(
            |e: Strike|
                exists|t: TargetView| #[trigger]
                    self.is_intersection(t) && t.cells.contains(e.0) && e.1 == t.val,
        )
    }

    /// The strikes that colouring asks for: the candidates that are seen in
    /// every colouring, and what placing the nodes that hold in every
    /// colouring amounts to.
    pub open spec fn colouring_strikes(self) -> Set<Strike> {
        Set::new(
            |e: Strike|
                self.always_seen(e) || exists|x: Candidate| #[trigger]
                    self.always_true(x) && self.place_strikes(x.0, x.1).contains(e),
        )
    }

    /// The strikes that a naked subset asks for: its digits, in every other
    /// cell of each unit that holds all its cells.
    pub open spec fn naked_group_strikes(self, p: nakeds::GroupView) -> Set<Strike> {
        Set::new(
            |e: Strike|
                offers(p.vals, e.1) && !p.cells.contains(e.0) && {
                    ||| p.relation.row && e.0.row == p.cells[0].row
                    ||| p.relation.col && e.0.col == p.cells[0].col
                    ||| exists|r: int|
                        0 <= r < self.regions.len() && #[trigger] self.region_has_all(r, p.cells)
                            && self.regions[r].contains(e.0)
                },
        )
    }

    /// The strikes that the naked subsets of size `k` ask for.
    pub open spec fn naked_strikes(self, k: int) -> Set<Strike> {
        Set::new(
            |e: Strike|
                exists|p: nakeds::GroupView| #[trigger]
                    self.is_naked(k, p) && self.naked_group_strikes(p).contains(e),
        )
    }

    /// A group as the board applies it: cells of the grid with their relation.
    pub open spec fn is_group(self, p: nakeds::GroupView) -> bool {
        &&& p.cells.len() >= 1
        &&& forall|i: int| 0 <= i < p.cells.len() ==> self.holds(#[trigger] p.cells[i])
        &&& p.relation == self.relation_of(p.cells)
    }

    /// The strikes that the hidden subsets of size `k` ask for.
    pub open spec fn hidden_strikes(self, k: int) -> Set<Strike> {
        Set::new(
            |e: Strike|
                exists|p: GroupView|
                    #[trigger] self.is_hidden(k, p) && hidden_group_strikes(p).contains(e),
        )
    }
}

impl Board {
    /// One step of a run: strikes `val` from `cell`.
    pub(crate) fn strike(
        &mut self,
        cell: Cell,
        val: u16,
        Ghost(start): Ghost<Grid>,
        Ghost(target): Ghost<Set<Strike>>,
        Ghost(done): Ghost<Set<Strike>>,
        changed: &mut bool,
    ) -> (ok: bool)
        requires
            progress(start, target, done, old(self)@, *old(changed)),
            old(self)@.holds(cell),
            val < 16,
            target.contains((cell, val)),
        ensures
            final(self).wf(),
            ok ==> progress(start, target, done.insert((cell, val)), final(self)@, *final(changed)),
            !ok ==> start.cascades(target, false, final(self)@),
    {
        let ghost before = self@;
        let res = self.clean_cell(cell, val);
        proof {
            let ch = match res {
                Ok(c) => c,
                Err(_) => false,
            };
            lemma_progress_step(
                start,
                target,
                done,
                before,
                *old(changed),
                set![(cell, val)],
                res is Ok,
                self@,
                ch,
            );
            assert(done + set![(cell, val)] =~= done.insert((cell, val)));
        }
        match res {
            Ok(ch) => {
                *changed = *changed || ch;
                true
            },
            Err(_) => false,
        }
    }

    /// One step of a run: strikes `val` from the unit or units of one group.
    fn strike_group_digit(
        &mut self,
        group: &nakeds::Group,
        rows: &Vec<usize>,
        cols: &Vec<usize>,
        val: u16,
        Ghost(start): Ghost<Grid>,
        Ghost(target): Ghost<Set<Strike>>,
        Ghost(done): Ghost<Set<Strike>>,
        changed: &mut bool,
    ) -> (r: (bool, Ghost<Set<Strike>>))
        requires
            progress(start, target, done, old(self)@, *old(changed)),
            start.is_group(group@),
            start.naked_group_strikes(group@).subset_of(target),
            offers(group@.vals, val),
            rows@.len() == group@.cells.len(),
            cols@.len() == group@.cells.len(),
            forall|i: int| 0 <= i < rows@.len() ==> #[trigger] rows@[i] == group@.cells[i].row,
            forall|i: int| 0 <= i < cols@.len() ==> #[trigger] cols@[i] == group@.cells[i].col,
        ensures
            final(self).wf(),
            r.0 ==> progress(start, target, r.1@, final(self)@, *final(changed)),
            r.0 ==> done.subset_of(r.1@),
            r.0 ==> forall|e: Strike|
                #[trigger] start.naked_group_strikes(group@).contains(e) && e.1 == val ==>
                    r.1@.contains(e),
            !r.0 ==> start.cascades(target, false, final(self)@),
    {
        let ghost p = group@;
        let ghost mut done = done;
        let first: Cell = group.cells[0];
        assert(first == p.cells[0]);
        if group.relation.row {
            let ghost step = row_strikes(first.row, cols@, val);
            let ghost before = self@;
            proof {
                assert forall|e: Strike| step.contains(e) implies #[trigger] target.contains(e) by {
                    if p.cells.contains(e.0) {
                        let i = choose|i: int| 0 <= i < p.cells.len() && p.cells[i] == e.0;
                        assert(cols@[i] == e.0.col);
                    }
                    assert(start.naked_group_strikes(p).contains(e));
                }
            }
            let res = self.clean_row(first.row, cols.as_slice(), val);
            proof {
                let ch = match res {
                    Ok(c) => c,
                    Err(_) => false,
                };
                lemma_progress_step(
                    start, target, done, before, *old(changed), step, res is Ok, self@, ch
                );
            }
            match res {
                Ok(ch) => {
                    *changed = *changed || ch;
                },
                Err(_) => {
                    return (false, Ghost(done));
                },
            }
            proof {
                done = done + step;
            }
        }
        let ghost after_row = done;
        let ghost changed_row = *changed;
        if group.relation.col {
            let ghost step = col_strikes(first.col, rows@, val);
            let ghost before = self@;
            proof {
                assert forall|e: Strike| step.contains(e) implies #[trigger] target.contains(e) by {
                    if p.cells.contains(e.0) {
                        let i = choose|i: int| 0 <= i < p.cells.len() && p.cells[i] == e.0;
                        assert(rows@[i] == e.0.row);
                    }
                    assert(start.naked_group_strikes(p).contains(e));
                }
            }
            let res = self.clean_col(first.col, rows.as_slice(), val);
            proof {
                let ch = match res {
                    Ok(c) => c,
                    Err(_) => false,
                };
                lemma_progress_step(
                    start, target, done, before, changed_row, step, res is Ok, self@, ch
                );
            }
            match res {
                Ok(ch) => {
                    *changed = *changed || ch;
                },
                Err(_) => {
                    return (false, Ghost(done));
                },
            }
            proof {
                done = done + step;
            }
        }
        proof {
            assert forall|e: Strike|
                #[trigger] start.naked_group_strikes(p).contains(e) && e.1 == val
                    && ((p.relation.row
                    && e.0.row == p.cells[0].row) || (p.relation.col && e.0.col
                    == p.cells[0].col)) implies done.contains(e) by {
                if p.relation.row && e.0.row == p.cells[0].row {
                    if cols@.contains(e.0.col) {
                        let i = choose|i: int| 0 <= i < cols@.len() && cols@[i] == e.0.col;
                        assert(p.cells[i].row == p.cells[0].row);
                        assert(p.cells[i] == e.0);
                    }
                    assert(row_strikes(first.row, cols@, val).contains(e));
                } else {
                    if rows@.contains(e.0.row) {
                        let i = choose|i: int| 0 <= i < rows@.len() && rows@[i] == e.0.row;
                        assert(p.cells[i].col == p.cells[0].col);
                        assert(p.cells[i] == e.0);
                    }
                    assert(col_strikes(first.col, rows@, val).contains(e));
                }
            }
        }
        if group.relation.reg {
            let count: usize = self.regions.len();
            let mut r: usize = 0;
            while r < count
                invariant
                    r <= count,
                    count == self@.regions.len(),
                    p == group@,
                    progress(start, target, done, self@, *changed),
                    start.is_group(p),
                    start.naked_group_strikes(p).subset_of(target),
                    offers(p.vals, val),
                    after_row.subset_of(done),
                    forall|e: Strike|
                        #[trigger] start.naked_group_strikes(p).contains(e) && e.1 == val && ((
                        p.relation.row && e.0.row == p.cells[0].row) || (p.relation.col && e.0.col
                            == p.cells[0].col)) ==> done.contains(e),
                    forall|e: Strike, q: int|
                        0 <= q < r && #[trigger] start.region_has_all(q, p.cells) && e.1 == val
                            && !p.cells.contains(e.0) && #[trigger] start.regions[q].contains(e.0)
                            ==> done.contains(e),
                decreases count - r,
            {
                if group.within_region(self, r) {
                    let ghost before = self@;
                    let ghost step = before.box_strikes(r as int, p.cells, val);
                    let ghost was = *changed;
                    proof {
                        assert forall|e: Strike| step.contains(e) implies
                            #[trigger] target.contains(
                            e,
                        ) by {
                            assert(start.region_has_all(r as int, p.cells));
                            assert(start.naked_group_strikes(p).contains(e));
                        }
                    }
                    let res = self.clean_region(r, group.cells.as_slice(), val);
                    proof {
                        let ch = match res {
                            Ok(c) => c,
                            Err(_) => false,
                        };
                        lemma_progress_step(
                            start, target, done, before, was, step, res is Ok, self@, ch
                        );
                    }
                    match res {
                        Ok(ch) => {
                            *changed = *changed || ch;
                        },
                        Err(_) => {
                            return (false, Ghost(done));
                        },
                    }
                    proof {
                        done = done + step;
                    }
                }
                r += 1;
            }
        }
        proof {
            assert forall|e: Strike|
                #[trigger] start.naked_group_strikes(p).contains(e) && e.1 == val implies
                    done.contains(
                e,
            ) by {
                if !((p.relation.row && e.0.row == p.cells[0].row) || (p.relation.col && e.0.col
                    == p.cells[0].col)) {
                    let q = choose|q: int|
                        0 <= q < start.regions.len() && #[trigger] start.region_has_all(q, p.cells)
                            && start.regions[q].contains(e.0);
                    assert(start.common_region(p.cells));
                }
            }
        }
        (true, Ghost(done))
    }

    /// A run over a list of groups: strikes what each of them asks for.
    fn strike_groups(
        &mut self,
        found: &Vec<nakeds::Group>,
        Ghost(target): Ghost<Set<Strike>>,
    ) -> (res: Result<bool, Contradiction>)
        requires
            old(self).wf(),
            forall|j: int| 0 <= j < found.len() ==> old(self)@.is_group(#[trigger] found[j]@),
            forall|j: int|
                0 <= j < found.len() ==> (#[trigger] old(self)@.naked_group_strikes(
                    found[j]@,
                )).subset_of(target),
            forall|c: Cell, v: u16|
                old(self)@.holds(c) && #[trigger] target.contains((c, v)) ==> exists|j: int|
                    0 <= j < found.len() && #[trigger] old(self)@.naked_group_strikes(
                        found[j]@,
                    ).contains((c, v)),
        ensures
            final(self).wf(),
            old(self)@.cascades(target, res is Ok, final(self)@),
            res matches Ok(changed) ==> changed == (final(self)@ != old(self)@),
            res is Ok && old(self)@.consistent() ==> final(self)@.consistent(),
    {
        let ghost start = self@;
        let ghost mut done: Set<Strike> = Set::empty();
        let mut changed = false;
        proof {
            lemma_progress_start(start, target);
        }
        let mut i: usize = 0;
        while i < found.len()
            invariant
                i <= found.len(),
                start == old(self)@,
                progress(start, target, done, self@, changed),
                forall|j: int| 0 <= j < found.len() ==> start.is_group(#[trigger] found[j]@),
                forall|j: int|
                    0 <= j < found.len() ==> (#[trigger] start.naked_group_strikes(
                        found[j]@,
                    )).subset_of(target),
                forall|j: int, e: Strike|
                    0 <= j < i && #[trigger] start.naked_group_strikes(found[j]@).contains(e)
                        ==> done.contains(e),
            decreases found.len() - i,
        {
            let group: &nakeds::Group = &found[i];
            let ghost p = group@;
            let mut rows: Vec<usize> = Vec::new();
            let mut cols: Vec<usize> = Vec::new();
            let mut t: usize = 0;
            while t < group.cells.len()
                invariant
                    t <= group.cells.len(),
                    rows@.len() == t,
                    cols@.len() == t,
                    forall|s: int| 0 <= s < t ==> #[trigger] rows@[s] == group@.cells[s].row,
                    forall|s: int| 0 <= s < t ==> #[trigger] cols@[s] == group@.cells[s].col,
                decreases group.cells.len() - t,
            {
                rows.push(group.cells[t].row);
                cols.push(group.cells[t].col);
                t += 1;
            }
            let mut d: u16 = 0;
            while d < 16
                invariant
                    d <= 16,
                    i < found.len(),
                    p == found[i as int]@,
                    group@ == p,
                    start == old(self)@,
                    progress(start, target, done, self@, changed),
                    start.is_group(p),
                    start.naked_group_strikes(p).subset_of(target),
                    rows@.len() == p.cells.len(),
                    cols@.len() == p.cells.len(),
                    forall|s: int| 0 <= s < rows@.len() ==> #[trigger] rows@[s] == p.cells[s].row,
                    forall|s: int| 0 <= s < cols@.len() ==> #[trigger] cols@[s] == p.cells[s].col,
                    forall|j: int, e: Strike|
                        0 <= j < i && #[trigger] start.naked_group_strikes(found[j]@).contains(e)
                            ==> done.contains(e),
                    forall|e: Strike|
                        #[trigger] start.naked_group_strikes(p).contains(e) && e.1 < d ==>
                            done.contains(e),
                decreases 16 - d,
            {
                if is_set(group.vals, d) {
                    let (ok, Ghost(now)) = self.strike_group_digit(
                        group,
                        &rows,
                        &cols,
                        d,
                        Ghost(start),
                        Ghost(target),
                        Ghost(done),
                        &mut changed,
                    );
                    if !ok {
                        return Err(Contradiction);
                    }
                    proof {
                        done = now;
                    }
                }
                d += 1;
            }
            i += 1;
        }
        proof {
            assert forall|c: Cell, v: u16|
                start.holds(c) && #[trigger] target.contains((c, v)) implies
                    done.contains((c, v)) by {
                let j = choose|j: int|
                    0 <= j < found.len()
                        && #[trigger] start.naked_group_strikes(found[j]@).contains(
                        (c, v),
                    );
                assert(done.contains((c, v)));
            }
            lemma_progress_done(start, target, done, self@, changed);
        }
        Ok(changed)
    }

    /// Strikes the digits of every naked subset of size `k` from the other
    /// cells of the units that hold it.
    pub fn clean_nakeds(&mut self, k: usize) -> (res: Result<bool, Contradiction>)
        requires
            old(self).wf(),
            1 <= k,
        ensures
            final(self).wf(),
            old(self)@.cascades(old(self)@.naked_strikes(k as int), res is Ok, final(self)@),
            res matches Ok(changed) ==> changed == (final(self)@ != old(self)@),
            res is Ok && old(self)@.consistent() ==> final(self)@.consistent(),
    {
        let found = nakeds::from_board_sized(self, k);
        let ghost target = self@.naked_strikes(k as int);
        proof {
            let g = self@;
            assert forall|j: int| 0 <= j < found.len() implies g.is_group(#[trigger] found[j]@)
                && g.naked_group_strikes(found[j]@).subset_of(target) by {
                assert(views(found@)[j] == found[j]@);
                assert(views(found@).contains(found[j]@));
                assert(g.is_naked(k as int, found[j]@));
            }
            assert forall|c: Cell, v: u16|
                g.holds(c) && #[trigger] target.contains((c, v)) implies exists|j: int|
                0 <= j < found.len()
                    && #[trigger] g.naked_group_strikes(found[j]@).contains((c, v)) by {
                let p = choose|p: nakeds::GroupView| #[trigger]
                    g.is_naked(k as int, p) && g.naked_group_strikes(p).contains((c, v));
                assert(views(found@).contains(p));
                let j = choose|j: int| 0 <= j < views(found@).len() && views(found@)[j] == p;
                assert(g.naked_group_strikes(found[j]@).contains((c, v)));
            }
        }
        self.strike_groups(&found, Ghost(target))
    }

    /// Strikes the digits of every naked pair, triple and quad from the
    /// other cells of the units that hold it.
    pub fn clean_groups(&mut self) -> (res: Result<bool, Contradiction>)
        requires
            old(self).wf(),
        ensures
            final(self).wf(),
            old(self)@.cascades(
                old(self)@.naked_strikes(2) + old(self)@.naked_strikes(3) + old(self)@.naked_strikes(4),
                res is Ok,
                final(self)@,
            ),
            res matches Ok(changed) ==> changed == (final(self)@ != old(self)@),
            res is Ok && old(self)@.consistent() ==> final(self)@.consistent(),
    {
        let found = groups::from_board(self);
        let ghost g = self@;
        let ghost target = g.naked_strikes(2) + g.naked_strikes(3) + g.naked_strikes(4);
        proof {
            assert forall|j: int| 0 <= j < found.len() implies g.is_group(#[trigger] found[j]@)
                && g.naked_group_strikes(found[j]@).subset_of(target) by {
                assert(views(found@)[j] == found[j]@);
                assert(views(found@).contains(found[j]@));
            }
            assert forall|c: Cell, v: u16|
                g.holds(c) && #[trigger] target.contains((c, v)) implies exists|j: int|
                0 <= j < found.len()
                    && #[trigger] g.naked_group_strikes(found[j]@).contains((c, v)) by {
                let k: int = if g.naked_strikes(2).contains((c, v)) {
                    2
                } else if g.naked_strikes(3).contains((c, v)) {
                    3
                } else {
                    4
                };
                let p = choose|p: nakeds::GroupView| #[trigger]
                    g.is_naked(k, p) && g.naked_group_strikes(p).contains((c, v));
                assert(views(found@).contains(p));
                let j = choose|j: int| 0 <= j < views(found@).len() && views(found@)[j] == p;
                assert(g.naked_group_strikes(found[j]@).contains((c, v)));
            }
        }
        self.strike_groups(&found, Ghost(target))
    }

    /// Strikes the digit of every fish of size `s` from the rest of its cross-lines.
    pub fn clean_fish(&mut self, s: usize) -> (res: Result<bool, Contradiction>)
        requires
            old(self).wf(),
        ensures
            final(self).wf(),
            old(self)@.cascades(old(self)@.fish_strikes(s as int), res is Ok, final(self)@),
            res matches Ok(changed) ==> changed == (final(self)@ != old(self)@),
            res is Ok && old(self)@.consistent() ==> final(self)@.consistent(),
    {
        let found = fish(self, s);
        let ghost start = self@;
        let ghost target = start.fish_strikes(s as int);
        let ghost mut done: Set<Strike> = Set::empty();
        let mut changed = false;
        proof {
            lemma_progress_start(start, target);
        }
        let mut i: usize = 0;
        while i < found.len()
            invariant
                i <= found.len(),
                start == old(self)@,
                target == start.fish_strikes(s as int),
                progress(start, target, done, self@, changed),
                forall|p: FishView|
                    #[trigger] views(found@).contains(p) <==> start.is_fish(s as int, p),
                forall|j: int, e: Strike|
                    0 <= j < i && #[trigger] fish_strikes_of(found[j]@).contains(e) ==>
                        done.contains(e),
            decreases found.len() - i,
        {
            let f: &Fish = &found[i];
            let ghost p = f@;
            proof {
                assert(views(found@)[i as int] == p);
                assert(views(found@).contains(p));
            }
            let lines: &Vec<usize> = if f.clear_rows {
                &f.rows
            } else {
                &f.cols
            };
            let cross: &Vec<usize> = if f.clear_rows {
                &f.cols
            } else {
                &f.rows
            };
            let mut t: usize = 0;
            while t < lines.len()
                invariant
                    t <= lines.len(),
                    i < found.len(),
                    p == found[i as int]@,
                    f@ == p,
                    start == old(self)@,
                    target == start.fish_strikes(s as int),
                    start.is_fish(s as int, p),
                    lines@ == (if p.clear_rows {
                        p.rows
                    } else {
                        p.cols
                    }),
                    cross@ == (if p.clear_rows {
                        p.cols
                    } else {
                        p.rows
                    }),
                    progress(start, target, done, self@, changed),
                    forall|j: int, e: Strike|
                        0 <= j < i && #[trigger] fish_strikes_of(found[j]@).contains(e) ==>
                            done.contains(e),
                    forall|e: Strike, q: int|
                        #[trigger] fish_strikes_of(p).contains(e) && 0 <= q < t
                            && #[trigger] lines@[q] == (
                        if p.clear_rows {
                            e.0.row
                        } else {
                            e.0.col
                        }) ==> done.contains(e),
                decreases lines.len() - t,
            {
                let line: usize = lines[t];
                let ghost before = self@;
                let ghost step = if p.clear_rows {
                    row_strikes(line, cross@, f.val)
                } else {
                    col_strikes(line, cross@, f.val)
                };
                proof {
                    assert forall|e: Strike|
                        step.contains(e) implies #[trigger] target.contains(e) by {
                        assert(lines@[t as int] == line);
                        assert(fish_strikes_of(p).contains(e));
                    }
                }
                let res = if f.clear_rows {
                    self.clean_row(line, cross.as_slice(), f.val)
                } else {
                    self.clean_col(line, cross.as_slice(), f.val)
                };
                proof {
                    let ch = match res {
                        Ok(c) => c,
                        Err(_) => false,
                    };
                    lemma_progress_step(
                        start, target, done, before, changed, step, res is Ok, self@, ch
                    );
                }
                match res {
                    Ok(ch) => {
                        changed = changed || ch;
                    },
                    Err(_) => {
                        return Err(Contradiction);
                    },
                }
                proof {
                    done = done + step;
                }
                t += 1;
            }
            proof {
                assert forall|e: Strike| #[trigger] fish_strikes_of(p).contains(e) implies
                    done.contains(
                    e,
                ) by {
                    let key = if p.clear_rows {
                        e.0.row
                    } else {
                        e.0.col
                    };
                    assert(lines@.contains(key));
                    let q = choose|q: int| 0 <= q < lines@.len() && lines@[q] == key;
                    assert(lines@[q] == key);
                }
            }
            i += 1;
        }
        proof {
            assert forall|c: Cell, v: u16|
                start.holds(c) && #[trigger] target.contains((c, v)) implies
                    done.contains((c, v)) by {
                let p = choose|p: FishView| #[trigger]
                    start.is_fish(s as int, p) && fish_strikes_of(p).contains((c, v));
                assert(views(found@).contains(p));
                let j = choose|j: int| 0 <= j < views(found@).len() && views(found@)[j] == p;
                assert(fish_strikes_of(found[j]@).contains((c, v)));
            }
            lemma_progress_done(start, target, done, self@, changed);
        }
        Ok(changed)
    }

    /// Strikes the digit of every X-wing from the rest of its cross-lines.
    pub fn clean_xwings2(&mut self) -> (res: Result<bool, Contradiction>)
        requires
            old(self).wf(),
        ensures
            final(self).wf(),
            old(self)@.cascades(old(self)@.fish_strikes(2), res is Ok, final(self)@),
            res matches Ok(changed) ==> changed == (final(self)@ != old(self)@),
            res is Ok && old(self)@.consistent() ==> final(self)@.consistent(),
    {
        self.clean_fish(2)
    }

    /// Strikes the digit of every swordfish from the rest of its cross-lines.
    pub fn clean_xwings3(&mut self) -> (res: Result<bool, Contradiction>)
        requires
            old(self).wf(),
        ensures
            final(self).wf(),
            old(self)@.cascades(old(self)@.fish_strikes(3), res is Ok, final(self)@),
            res matches Ok(changed) ==> changed == (final(self)@ != old(self)@),
            res is Ok && old(self)@.consistent() ==> final(self)@.consistent(),
    {
        self.clean_fish(3)
    }

    /// Strikes the shared digit of every Y-wing from the cells that see both wings.
    pub fn clean_ywings(&mut self) -> (res: Result<bool, Contradiction>)
        requires
            old(self).wf(),
        ensures
            final(self).wf(),
            old(self)@.cascades(old(self)@.ywing_strikes(), res is Ok, final(self)@),
            res matches Ok(changed) ==> changed == (final(self)@ != old(self)@),
            res is Ok && old(self)@.consistent() ==> final(self)@.consistent(),
    {
        let found = ywings::from_board(self);
        let ghost start = self@;
        let ghost target = start.ywing_strikes();
        let ghost mut done: Set<Strike> = Set::empty();
        let mut changed = false;
        proof {
            lemma_progress_start(start, target);
        }
        let mut i: usize = 0;
        while i < found.len()
            invariant
                i <= found.len(),
                start == old(self)@,
                target == start.ywing_strikes(),
                progress(start, target, done, self@, changed),
                forall|y: YWing| #[trigger] found@.contains(y) <==> start.is_ywing(y),
                forall|j: int|
                    0 <= j < i ==> done.contains(((#[trigger] found[j]).target, found[j].val)),
            decreases found.len() - i,
        {
            let y: YWing = found[i];
            proof {
                assert(found@.contains(y));
                assert(start.is_ywing(y));
                assert(target.contains((y.target, y.val)));
            }
            let ok = self.strike(
                y.target,
                y.val,
                Ghost(start),
                Ghost(target),
                Ghost(done),
                &mut changed,
            );
            if !ok {
                return Err(Contradiction);
            }
            proof {
                done = done.insert((y.target, y.val));
            }
            i += 1;
        }
        proof {
            assert forall|c: Cell, v: u16|
                start.holds(c) && #[trigger] target.contains((c, v)) implies
                    done.contains((c, v)) by {
                let y = choose|y: YWing| #[trigger] start.is_ywing(y)
                    && (c, v) == (y.target, y.val);
                assert(found@.contains(y));
                let j = choose|j: int| 0 <= j < found@.len() && found@[j] == y;
                assert(found[j] == y);
            }
            lemma_progress_done(start, target, done, self@, changed);
        }
        Ok(changed)
    }

    /// Strikes the digit of every intersection from the cells that it yields.
    pub fn clean_intersections(&mut self) -> (res: Result<bool, Contradiction>)
        requires
            old(self).wf(),
        ensures
            final(self).wf(),
            old(self)@.cascades(old(self)@.intersection_strikes(), res is Ok, final(self)@),
            res matches Ok(changed) ==> changed == (final(self)@ != old(self)@),
            res is Ok && old(self)@.consistent() ==> final(self)@.consistent(),
    {
        let found = intersections::from_board(self);
        let ghost start = self@;
        let ghost target = start.intersection_strikes();
        let ghost mut done: Set<Strike> = Set::empty();
        let mut changed = false;
        proof {
            lemma_progress_start(start, target);
        }
        let mut i: usize = 0;
        while i < found.len()
            invariant
                i <= found.len(),
                start == old(self)@,
                target == start.intersection_strikes(),
                progress(start, target, done, self@, changed),
                forall|t: TargetView|
                    #[trigger] views(found@).contains(t) <==> start.is_intersection(t),
                forall|j: int, c: Cell|
                    0 <= j < i && #[trigger] found[j]@.cells.contains(c) ==>
                        done.contains((c, found[j]@.val)),
            decreases found.len() - i,
        {
            let item: &IntersectionTarget = &found[i];
            let ghost t = item@;
            proof {
                assert(views(found@)[i as int] == t);
                assert(views(found@).contains(t));
                lemma_intersection_on_grid(start, t);
            }
            let mut j: usize = 0;
            while j < item.cells.len()
                invariant
                    j <= item.cells.len(),
                    i < found.len(),
                    t == found[i as int]@,
                    item@ == t,
                    start == old(self)@,
                    target == start.intersection_strikes(),
                    start.is_intersection(t),
                    1 <= t.val <= start.size(),
                    forall|q: int| 0 <= q < t.cells.len() ==> start.holds(#[trigger] t.cells[q]),
                    progress(start, target, done, self@, changed),
                    forall|j: int, c: Cell|
                        0 <= j < i && #[trigger] found[j]@.cells.contains(c) ==> done.contains(
                            (c, found[j]@.val),
                        ),
                    forall|q: int| 0 <= q < j ==> done.contains((#[trigger] t.cells[q], t.val)),
                decreases item.cells.len() - j,
            {
                let cell: Cell = item.cells[j];
                proof {
                    assert(cell == t.cells[j as int]);
                    assert(t.cells.contains(cell));
                    assert(target.contains((cell, t.val)));
                }
                let ok = self.strike(
                    cell,
                    item.val,
                    Ghost(start),
                    Ghost(target),
                    Ghost(done),
                    &mut changed,
                );
                if !ok {
                    return Err(Contradiction);
                }
                proof {
                    done = done.insert((cell, t.val));
                }
                j += 1;
            }
            proof {
                assert forall|c: Cell| #[trigger] found[i as int]@.cells.contains(c) implies
                    done.contains(
                    (c, found[i as int]@.val),
                ) by {
                    let q = choose|q: int| 0 <= q < t.cells.len() && t.cells[q] == c;
                    assert(done.contains((t.cells[q], t.val)));
                }
            }
            i += 1;
        }
        proof {
            assert forall|c: Cell, v: u16|
                start.holds(c) && #[trigger] target.contains((c, v)) implies
                    done.contains((c, v)) by {
                let t = choose|t: TargetView| #[trigger]
                    start.is_intersection(t) && t.cells.contains(c) && v == t.val;
                assert(views(found@).contains(t));
                let j = choose|j: int| 0 <= j < views(found@).len() && views(found@)[j] == t;
                assert(found[j]@.cells.contains(c));
            }
            lemma_progress_done(start, target, done, self@, changed);
        }
        Ok(changed)
    }

    /// One step of a run: solves `cell` with `val`, by striking its other
    /// digits and `val` in its peers.
    fn place_step(
        &mut self,
        cell: Cell,
        val: u16,
        Ghost(start): Ghost<Grid>,
        Ghost(target): Ghost<Set<Strike>>,
        Ghost(done): Ghost<Set<Strike>>,
        changed: &mut bool,
    ) -> (r: (bool, Ghost<Set<Strike>>))
        requires
            progress(start, target, done, old(self)@, *old(changed)),
            start.holds(cell),
            val < 16,
            start.place_strikes(cell, val).subset_of(target),
        ensures
            final(self).wf(),
            r.0 ==> progress(start, target, r.1@, final(self)@, *final(changed)),
            r.0 ==> done.subset_of(r.1@),
            r.0 ==> start.place_strikes(cell, val).subset_of(r.1@),
            !r.0 ==> start.cascades(target, false, final(self)@),
    {
        let ghost mut done = done;
        let ghost all = start.place_strikes(cell, val);
        let ghost entry = done;
        let mut d: u16 = 0;
        while d < 16
            invariant
                d <= 16,
                val < 16,
                start.holds(cell),
                all == start.place_strikes(cell, val),
                all.subset_of(target),
                progress(start, target, done, self@, *changed),
                entry.subset_of(done),
                forall|e: u16| e < d && e != val ==> done.contains((cell, e)),
            decreases 16 - d,
        {
            if d != val {
                proof {
                    assert(all.contains((cell, d)));
                }
                let ok = self.strike(cell, d, Ghost(start), Ghost(target), Ghost(done), changed);
                if !ok {
                    return (false, Ghost(done));
                }
                proof {
                    done = done.insert((cell, d));
                }
            }
            d += 1;
        }
        let rows: [usize; 1] = [cell.row];
        let cols: [usize; 1] = [cell.col];
        let own: [Cell; 1] = [cell];
        let ghost s1 = col_strikes(cell.col, rows@, val);
        let ghost s2 = row_strikes(cell.row, cols@, val);
        let ghost s3 = start.region_strikes(cell, own@, val);
        proof {
            assert(s1.subset_of(all));
            assert(s2.subset_of(all));
            assert(s3.subset_of(all));
        }
        let ghost b1 = self@;
        let ghost c1 = *changed;
        let r1 = self.clean_col(cell.col, &rows, val);
        proof {
            let ch = match r1 {
                Ok(c) => c,
                Err(_) => false,
            };
            lemma_progress_step(start, target, done, b1, c1, s1, r1 is Ok, self@, ch);
        }
        match r1 {
            Ok(ch) => {
                *changed = *changed || ch;
            },
            Err(_) => {
                return (false, Ghost(done));
            },
        }
        proof {
            done = done + s1;
        }
        let ghost b2 = self@;
        let ghost c2 = *changed;
        let r2 = self.clean_row(cell.row, &cols, val);
        proof {
            let ch = match r2 {
                Ok(c) => c,
                Err(_) => false,
            };
            lemma_progress_step(start, target, done, b2, c2, s2, r2 is Ok, self@, ch);
        }
        match r2 {
            Ok(ch) => {
                *changed = *changed || ch;
            },
            Err(_) => {
                return (false, Ghost(done));
            },
        }
        proof {
            done = done + s2;
        }
        let ghost b3 = self@;
        let ghost c3 = *changed;
        proof {
            assert(b3.regions == start.regions);
            assert forall|e: Strike| b3.region_strikes(cell, own@, val).contains(e) == s3.contains(e) by {
                assert(b3.share_region(cell, e.0) == start.share_region(cell, e.0));
            }
            assert(b3.region_strikes(cell, own@, val) =~= s3);
        }
        let r3 = self.clean_reg(cell, &own, val);
        proof {
            let ch = match r3 {
                Ok(c) => c,
                Err(_) => false,
            };
            lemma_progress_step(start, target, done, b3, c3, s3, r3 is Ok, self@, ch);
        }
        match r3 {
            Ok(ch) => {
                *changed = *changed || ch;
            },
            Err(_) => {
                return (false, Ghost(done));
            },
        }
        proof {
            done = done + s3;
            assert forall|e: Strike| all.contains(e) implies done.contains(e) by {
                if !(e.0 == cell && e.1 != val && e.1 < 16) {
                    assert(start.peer_strikes(cell, val).contains(e));
                    if e.0.col == cell.col {
                        assert(s1.contains(e));
                    } else if e.0.row == cell.row {
                        assert(s2.contains(e));
                    } else {
                        assert(s3.contains(e));
                    }
                }
            }
        }
        (true, Ghost(done))
    }

    /// Places what holds in every colouring of the graph of candidates, and
    /// strikes what is seen in every colouring.
    pub fn clean_colouring(&mut self) -> (res: Result<bool, Contradiction>)
        requires
            old(self).wf(),
        ensures
            final(self).wf(),
            old(self)@.cascades(old(self)@.colouring_strikes(), res is Ok, final(self)@),
            res matches Ok(changed) ==> changed == (final(self)@ != old(self)@),
            res is Ok && old(self)@.consistent() ==> final(self)@.consistent(),
    {
        let ghost start = self@;
        let ghost target = start.colouring_strikes();
        let map = match colouring::from_board(self) {
            Ok(map) => map,
            Err(e) => {
                proof {
                    lemma_uncolourable(start);
                }
                return Err(e);
            },
        };
        let ghost mut done: Set<Strike> = Set::empty();
        let mut changed = false;
        proof {
            lemma_progress_start(start, target);
        }
        let mut i: usize = 0;
        while i < map.placed.len()
            invariant
                i <= map.placed.len(),
                start == old(self)@,
                target == start.colouring_strikes(),
                progress(start, target, done, self@, changed),
                forall|x: Candidate| map.placed@.contains(x) <==> start.always_true(x),
                forall|j: int|
                    0 <= j < i ==> (#[trigger] start.place_strikes(
                        map.placed@[j].0,
                        map.placed@[j].1,
                    )).subset_of(done),
            decreases map.placed.len() - i,
        {
            let (cell, val) = map.placed[i];
            proof {
                assert(map.placed@.contains((cell, val)));
                assert(start.always_true((cell, val)));
                assert(start.place_strikes(cell, val).subset_of(target));
            }
            let (ok, Ghost(now)) = self.place_step(
                cell,
                val,
                Ghost(start),
                Ghost(target),
                Ghost(done),
                &mut changed,
            );
            if !ok {
                return Err(Contradiction);
            }
            proof {
                done = now;
            }
            i += 1;
        }
        let mut k: usize = 0;
        while k < map.eliminated.len()
            invariant
                k <= map.eliminated.len(),
                start == old(self)@,
                target == start.colouring_strikes(),
                progress(start, target, done, self@, changed),
                forall|x: Candidate| map.placed@.contains(x) <==> start.always_true(x),
                forall|e: Candidate| map.eliminated@.contains(e) <==> start.always_seen(e),
                forall|j: int|
                    0 <= j < map.placed.len() ==> (#[trigger] start.place_strikes(
                        map.placed@[j].0,
                        map.placed@[j].1,
                    )).subset_of(done),
                forall|j: int| 0 <= j < k ==> done.contains(#[trigger] map.eliminated@[j]),
            decreases map.eliminated.len() - k,
        {
            let (cell, val) = map.eliminated[k];
            proof {
                assert(map.eliminated@.contains((cell, val)));
                assert(start.always_seen((cell, val)));
                assert(target.contains((cell, val)));
            }
            let ok = self.strike(cell, val, Ghost(start), Ghost(target), Ghost(done), &mut changed);
            if !ok {
                return Err(Contradiction);
            }
            proof {
                done = done.insert((cell, val));
            }
            k += 1;
        }
        proof {
            assert forall|c: Cell, v: u16|
                start.holds(c) && #[trigger] target.contains((c, v)) implies
                    done.contains((c, v)) by {
                if start.always_seen((c, v)) {
                    assert(map.eliminated@.contains((c, v)));
                    let j = choose|j: int|
                        0 <= j < map.eliminated@.len() && map.eliminated@[j] == (c, v);
                    assert(done.contains(map.eliminated@[j]));
                } else {
                    let x = choose|x: Candidate| #[trigger]
                        start.always_true(x) && start.place_strikes(x.0, x.1).contains((c, v));
                    assert(map.placed@.contains(x));
                    let j = choose|j: int| 0 <= j < map.placed@.len() && map.placed@[j] == x;
                    assert(start.place_strikes(map.placed@[j].0, map.placed@[j].1).subset_of(done));
                }
            }
            lemma_progress_done(start, target, done, self@, changed);
        }
        Ok(changed)
    }

    /// Confines the cells of every hidden subset of size `k` to its digits.
    pub fn clean_hiddens(&mut self, k: usize) -> (res: Result<bool, Contradiction>)
        requires
            old(self).wf(),
        ensures
            final(self).wf(),
            old(self)@.cascades(old(self)@.hidden_strikes(k as int), res is Ok, final(self)@),
            res matches Ok(changed) ==> changed == (final(self)@ != old(self)@),
            res is Ok && old(self)@.consistent() ==> final(self)@.consistent(),
    {
        let found = from_board_sized(self, k);
        let ghost start = self@;
        let ghost target = start.hidden_strikes(k as int);
        let ghost mut done: Set<Strike> = Set::empty();
        let mut changed = false;
        proof {
            lemma_progress_start(start, target);
        }
        let mut i: usize = 0;
        while i < found.len()
            invariant
                i <= found.len(),
                progress(start, target, done, self@, changed),
                start == old(self)@,
                target == start.hidden_strikes(k as int),
                forall|p: GroupView|
                    #[trigger] views(found@).contains(p) <==> start.is_hidden(k as int, p),
                forall|j: int, e: Strike|
                    0 <= j < i && #[trigger] hidden_group_strikes(found[j]@).contains(e)
                        && start.holds(e.0)
                        ==> done.contains(e),
            decreases found.len() - i,
        {
            let group: &Group = &found[i];
            let ghost p = group@;
            proof {
                assert(views(found@)[i as int] == p);
                assert(views(found@).contains(p));
                assert(start.is_hidden(k as int, p));
                crate::hiddens::lemma_hidden_on_grid(start, k as int, p);
            }
            let mut j: usize = 0;
            while j < group.cells.len()
                invariant
                    j <= group.cells.len(),
                    progress(start, target, done, self@, changed),
                    start == old(self)@,
                    i < found.len(),
                    p == group@,
                    start.is_hidden(k as int, p),
                    target == start.hidden_strikes(k as int),
                    forall|t: int| 0 <= t < p.cells.len() ==> start.holds(#[trigger] p.cells[t]),
                    forall|j: int, e: Strike|
                        0 <= j < i && #[trigger] hidden_group_strikes(found[j]@).contains(e)
                            && start.holds(e.0)
                            ==> done.contains(e),
                    forall|t: int, v: u16|
                        0 <= t < j && v < 16 && !offers(p.vals, v) ==> #[trigger] done.contains(
                            (p.cells[t], v),
                        ),
                decreases group.cells.len() - j,
            {
                let cell: Cell = group.cells[j];
                assert(cell == p.cells[j as int]);
                let mut d: u16 = 0;
                while d < 16
                    invariant
                        d <= 16,
                        j < group.cells.len(),
                        cell == p.cells[j as int],
                        progress(start, target, done, self@, changed),
                        start == old(self)@,
                        i < found.len(),
                        p == group@,
                        start.is_hidden(k as int, p),
                        start.holds(cell),
                        target == start.hidden_strikes(k as int),
                        forall|j: int, e: Strike|
                            0 <= j < i && #[trigger] hidden_group_strikes(found[j]@).contains(e)
                                && start.holds(e.0) ==> done.contains(e),
                        forall|t: int, v: u16|
                            0 <= t < j && v < 16 && !offers(p.vals, v) ==> #[trigger] done.contains(
                                (p.cells[t], v),
                            ),
                        forall|v: u16| v < d && !offers(p.vals, v) ==> done.contains((cell, v)),
                    decreases 16 - d,
                {
                    if !is_set(group.vals, d) {
                        proof {
                            assert(hidden_group_strikes(p).contains((cell, d)));
                            assert(target.contains((cell, d)));
                        }
                        let ok = self.strike(
                            cell,
                            d,
                            Ghost(start),
                            Ghost(target),
                            Ghost(done),
                            &mut changed,
                        );
                        if !ok {
                            return Err(Contradiction);
                        }
                        proof {
                            done = done.insert((cell, d));
                        }
                    }
                    d += 1;
                }
                j += 1;
            }
            proof {
                assert forall|e: Strike|
                    #[trigger] hidden_group_strikes(found[i as int]@).contains(e) && start.holds(
                        e.0,
                    ) implies done.contains(e) by {
                    let t = choose|t: int| 0 <= t < p.cells.len() && p.cells[t] == e.0;
                    assert(done.contains((p.cells[t], e.1)));
                }
            }
            i += 1;
        }
        proof {
            assert forall|c: Cell, v: u16|
                start.holds(c) && #[trigger] target.contains((c, v)) implies
                    done.contains((c, v)) by {
                let p = choose|p: GroupView| #[trigger]
                    start.is_hidden(k as int, p) && hidden_group_strikes(p).contains((c, v));
                assert(views(found@).contains(p));
                let j = choose|j: int| 0 <= j < views(found@).len() && views(found@)[j] == p;
                assert(hidden_group_strikes(found[j]@).contains((c, v)));
            }
            lemma_progress_done(start, target, done, self@, changed);
        }
        Ok(changed)
    }
}

} // verus!
