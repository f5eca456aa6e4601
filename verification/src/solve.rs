//! The solver: the techniques in order of cost, each run until it finds
//! nothing, the cheapest first again after every change.

use vstd::prelude::*;
use crate::bits::offers;
use crate::board::{Board, Cell, Contradiction};
use crate::grid::{
    lemma_cascade_changed, lemma_cascade_failed, lemma_cascades_unique, lemma_admits_self,
    lemma_place_as_strikes, lemma_refines_trans, lemma_weight_refines, Grid, Strike,
};
use crate::singles::lemma_hidden_single_unique;

verus! {

/// The number of techniques.
pub const TECHNIQUES: usize = 12;

impl Grid {
    /// The strikes of the first hidden single in reading order, if there is one.
    pub open spec fn single_strikes(self) -> Set<Strike> {
        Set::new(
            |e: Strike|
                exists|c: Cell, d: u16| #[trigger]
                    self.first_hidden_single(c, d) && self.place_strikes(c, d).contains(e),
        )
    }

    /// The strikes that the technique with the given number asks for. In
    /// order: hidden single, naked pair, hidden pair, naked triple, hidden
    /// triple, X-wing, Y-wing, intersections, naked quad, hidden quad,
    /// swordfish, colouring.
    pub open spec fn technique_strikes(self, t: int) -> Set<Strike> {
        if t == 0 {
            self.single_strikes()
        } else if t == 1 {
            self.naked_strikes(2)
        } else if t == 2 {
            self.hidden_strikes(2)
        } else if t == 3 {
            self.naked_strikes(3)
        } else if t == 4 {
            self.hidden_strikes(3)
        } else if t == 5 {
            self.fish_strikes(2)
        } else if t == 6 {
            self.ywing_strikes()
        } else if t == 7 {
            self.intersection_strikes()
        } else if t == 8 {
            self.naked_strikes(4)
        } else if t == 9 {
            self.hidden_strikes(4)
        } else if t == 10 {
            self.fish_strikes(3)
        } else {
            self.colouring_strikes()
        }
    }

    /// The technique finds something to strike.
    pub open spec fn productive(self, t: int) -> bool {
        self.offers_any(self.technique_strikes(t))
    }

    /// `t` is the cheapest technique that finds something to strike.
    pub open spec fn cheapest(self, t: int) -> bool {
        &&& 0 <= t < TECHNIQUES
        &&& self.productive(t)
        &&& forall|u: int| 0 <= u < t ==> !self.productive(u)
    }

    /// No technique finds anything to strike.
    pub open spec fn stable(self) -> bool {
        forall|t: int| 0 <= t < TECHNIQUES ==> !self.productive(t)
    }

    /// One step of the solver: the cheapest productive technique takes `self` to `next`.
    pub open spec fn steps_to(self, next: Grid) -> bool {
        exists|t: int|
            self.cheapest(t) && #[trigger] self.cascades(self.technique_strikes(t), true, next)
    }

    /// The cheapest productive technique runs into a contradiction.
    pub open spec fn stuck(self) -> bool {
        exists|t: int|
            self.cheapest(t)
                && forall|x: Grid| !#[trigger] self.admits(self.technique_strikes(t), x)
    }
}

/// A run of the solver: each grid steps to the next.
pub open spec fn is_run(trace: Seq<Grid>) -> bool {
    &&& trace.len() >= 1
    &&& forall|i: int| 0 <= i < trace.len() - 1 ==> (#[trigger] trace[i]).steps_to(trace[i + 1])
}

/// What `solve` delivers from `start`: a run that ends in a stable grid
/// `out` (`ok`), or one that ends where the next step is a contradiction.
pub open spec fn solves(start: Grid, ok: bool, out: Grid) -> bool {
    exists|trace: Seq<Grid>|
        #[trigger] is_run(trace) && trace[0] == start && (if ok {
            trace.last() == out && out.stable()
        } else {
            trace.last().stuck()
        })
}

/// A grid has one cheapest technique at most, and steps to one grid at most.
pub proof fn lemma_step_unique(g: Grid, a: Grid, b: Grid)
    requires
        g.steps_to(a),
        g.steps_to(b),
    ensures
        a == b,
{
    let t = choose|t: int| g.cheapest(t) && #[trigger] g.cascades(g.technique_strikes(t), true, a);
    let u = choose|u: int| g.cheapest(u) && #[trigger] g.cascades(g.technique_strikes(u), true, b);
    assert(t == u);
    lemma_cascades_unique(g, g.technique_strikes(t), true, a, true, b);
}

/// Two runs from the same grid agree as far as both go.
pub proof fn lemma_runs_agree(a: Seq<Grid>, b: Seq<Grid>, i: int)
    requires
        is_run(a),
        is_run(b),
        a[0] == b[0],
        0 <= i < a.len(),
        i < b.len(),
    ensures
        a[i] == b[i],
    decreases i,
{
    if i > 0 {
        lemma_runs_agree(a, b, i - 1);
        assert(a[i - 1].steps_to(a[i]));
        assert(b[i - 1].steps_to(b[i]));
        lemma_step_unique(a[i - 1], a[i], b[i]);
    }
}

/// A grid that steps on is neither stable nor stuck.
pub proof fn lemma_step_excludes(g: Grid, next: Grid)
    requires
        g.steps_to(next),
    ensures
        !g.stable(),
        !g.stuck(),
{
    let t = choose|t: int| g.cheapest(t)
        && #[trigger] g.cascades(g.technique_strikes(t), true, next);
    if g.stuck() {
        let u = choose|u: int|
            g.cheapest(u) && forall|x: Grid| !#[trigger] g.admits(g.technique_strikes(u), x);
        assert(t == u);
        assert(g.admits(g.technique_strikes(t), next));
    }
}

/// Determinism: what `solve` delivers depends on the grid alone. Two
/// outcomes for the same grid both succeed or both fail, and where they
/// succeed they end in the same grid.
pub proof fn lemma_solve_deterministic(start: Grid, ok1: bool, out1: Grid, ok2: bool, out2: Grid)
    requires
        solves(start, ok1, out1),
        solves(start, ok2, out2),
    ensures
        ok1 == ok2,
        ok1 ==> out1 == out2,
{
    let a = choose|trace: Seq<Grid>|
        #[trigger] is_run(trace) && trace[0] == start && (if ok1 {
            trace.last() == out1 && out1.stable()
        } else {
            trace.last().stuck()
        });
    let b = choose|trace: Seq<Grid>|
        #[trigger] is_run(trace) && trace[0] == start && (if ok2 {
            trace.last() == out2 && out2.stable()
        } else {
            trace.last().stuck()
        });
    if a.len() < b.len() {
        lemma_runs_agree(a, b, a.len() - 1);
        assert(b[a.len() - 1].steps_to(b[a.len() as int]));
        lemma_step_excludes(b[a.len() - 1], b[a.len() as int]);
    } else if b.len() < a.len() {
        lemma_runs_agree(a, b, b.len() - 1);
        assert(a[b.len() - 1].steps_to(a[b.len() as int]));
        lemma_step_excludes(a[b.len() - 1], a[b.len() as int]);
    } else {
        lemma_runs_agree(a, b, a.len() - 1);
        if a.last().stuck() {
            let t = choose|t: int|
                a.last().cheapest(t) && forall|x: Grid|
                    !#[trigger] a.last().admits(a.last().technique_strikes(t), x);
            assert(!a.last().stable());
        }
    }
}

/// Idempotence: from a stable grid `solve` succeeds and changes nothing.
pub proof fn lemma_solve_idempotent(start: Grid, ok: bool, out: Grid)
    requires
        start.stable(),
        solves(start, ok, out),
    ensures
        ok,
        out == start,
{
    let a = choose|trace: Seq<Grid>|
        #[trigger] is_run(trace) && trace[0] == start && (if ok {
            trace.last() == out && out.stable()
        } else {
            trace.last().stuck()
        });
    if a.len() > 1 {
        assert(a[0].steps_to(a[1]));
        lemma_step_excludes(a[0], a[1]);
    }
    if a.last().stuck() {
        let t = choose|t: int|
            a.last().cheapest(t) && forall|x: Grid|
                !#[trigger] a.last().admits(a.last().technique_strikes(t), x);
        assert(!a.last().stable());
    }
}

/// The strikes of the hidden-single technique are those of the first hidden single.
pub proof fn lemma_single_strikes(g: Grid, c: Cell, d: u16)
    requires
        g.first_hidden_single(c, d),
    ensures
        g.single_strikes() == g.place_strikes(c, d),
{
    assert forall|e: Strike|
        g.single_strikes().contains(e) implies g.place_strikes(c, d).contains(e) by {
        let (c2, d2) = choose|c2: Cell, d2: u16| #[trigger]
            g.first_hidden_single(c2, d2) && g.place_strikes(c2, d2).contains(e);
        crate::singles::lemma_first_hidden_single_unique(g, c);
        lemma_hidden_single_unique(g, c, d, d2);
    }
    assert(g.single_strikes() =~= g.place_strikes(c, d));
}

impl Board {
    /// Runs the technique with the given number once.
    pub fn apply_technique(&mut self, t: usize) -> (res: Result<bool, Contradiction>)
        requires
            old(self).wf(),
            t < TECHNIQUES,
        ensures
            final(self).wf(),
            old(self)@.cascades(old(self)@.technique_strikes(t as int), res is Ok, final(self)@),
            res matches Ok(changed) ==> changed == (final(self)@ != old(self)@),
            res is Ok && old(self)@.consistent() ==> final(self)@.consistent(),
    {
        if t == 0 {
            let ghost g = self@;
            let res = self.place_hidden_single();
            proof {
                if forall|c: Cell| g.holds(c) ==> #[trigger] g.no_hidden_single(c) {
                    assert forall|c: Cell, v: u16| #[trigger]
                        g.single_strikes().contains((c, v)) && g.holds(c) implies !offers(
                        g.at(c),
                        v,
                    ) by {
                        let (c2, d2) = choose|c2: Cell, d2: u16| #[trigger]
                            g.first_hidden_single(c2, d2)
                                && g.place_strikes(c2, d2).contains((c, v));
                        assert(g.no_hidden_single(c2));
                    }
                    lemma_admits_self(g, g.single_strikes());
                } else {
                    let (c, d) = lemma_first_exists(g);
                    lemma_single_strikes(g, c, d);
                    lemma_place_as_strikes(g, c, d, res is Ok, self@);
                }
            }
            res
        } else if t == 1 {
            self.clean_nakeds(2)
        } else if t == 2 {
            self.clean_hiddens(2)
        } else if t == 3 {
            self.clean_nakeds(3)
        } else if t == 4 {
            self.clean_hiddens(3)
        } else if t == 5 {
            self.clean_xwings2()
        } else if t == 6 {
            self.clean_ywings()
        } else if t == 7 {
            self.clean_intersections()
        } else if t == 8 {
            self.clean_nakeds(4)
        } else if t == 9 {
            self.clean_hiddens(4)
        } else if t == 10 {
            self.clean_xwings3()
        } else {
            self.clean_colouring()
        }
    }

    /// Runs the techniques, the cheapest first and the cheapest again after
    /// every change, until none finds anything or one runs into a contradiction.
    pub fn solve(&mut self) -> (res: Result<(), Contradiction>)
        requires
            old(self).wf(),
        ensures
            final(self).wf(),
            final(self)@.refines(old(self)@),
            solves(old(self)@, res is Ok, final(self)@),
            res is Ok ==> final(self)@.stable(),
            old(self)@.stable() ==> res is Ok && final(self)@ == old(self)@,
            res is Ok && old(self)@.consistent() ==> final(self)@.consistent(),
            forall|s: Grid|
                old(self)@.proper() && #[trigger] s.solution_of(old(self)@) ==> res is Ok
                    && s.solution_of(final(self)@),
    {
        let ghost mut trace: Seq<Grid> = seq![self@];
        let mut t: usize = 0;
        proof {
            crate::bits::lemma_within();
        }
        while t < TECHNIQUES
            invariant
                self.wf(),
                self@.refines(old(self)@),
                t <= TECHNIQUES,
                is_run(trace),
                trace[0] == old(self)@,
                trace.last() == self@,
                forall|u: int| 0 <= u < t ==> !self@.productive(u),
                old(self)@.stable() ==> self@ == old(self)@,
                old(self)@.consistent() ==> self@.consistent(),
            decreases self@.weight(), TECHNIQUES - t,
        {
            let ghost g = self@;
            let res = self.apply_technique(t);
            proof {
                lemma_refines_trans(self@, g, old(self)@);
                lemma_weight_refines(self@, g);
                if res is Ok {
                    lemma_cascade_changed(g, g.technique_strikes(t as int), self@);
                } else {
                    lemma_cascade_failed(g, g.technique_strikes(t as int), self@);
                }
            }
            match res {
                Err(e) => {
                    proof {
                        assert(g.cheapest(t as int));
                        assert(g.stuck());
                        assert(solves(old(self)@, false, self@));
                        assert forall|s: Grid|
                            old(self)@.proper() && #[trigger] s.solution_of(old(self)@) implies false by {
                            crate::sound::lemma_solve_sound(old(self)@, s, false, self@);
                        }
                    }
                    return Err(e);
                },
                Ok(true) => {
                    proof {
                        assert(g.cheapest(t as int));
                        assert(g.steps_to(self@));
                        let longer = trace.push(self@);
                        assert forall|i: int| 0 <= i < longer.len() - 1 implies
                            (#[trigger] longer[i]).steps_to(
                            longer[i + 1],
                        ) by {
                            if i < trace.len() - 1 {
                                assert(trace[i].steps_to(trace[i + 1]));
                            }
                        }
                        trace = longer;
                        crate::grid::lemma_weight_strict(self@, g);
                    }
                    t = 0;
                },
                Ok(false) => {
                    t += 1;
                },
            }
        }
        proof {
            assert(solves(old(self)@, true, self@));
            assert forall|s: Grid|
                old(self)@.proper() && #[trigger] s.solution_of(old(self)@) implies s.solution_of(
                self@,
            ) by {
                crate::sound::lemma_solve_sound(old(self)@, s, true, self@);
            }
        }
        Ok(())
    }
}

/// Where some cell has a hidden single, there is a first one.
pub proof fn lemma_first_exists(g: Grid) -> (r: (Cell, u16))
    requires
        g.shaped(),
        !(forall|c: Cell| g.holds(c) ==> #[trigger] g.no_hidden_single(c)),
    ensures
        g.first_hidden_single(r.0, r.1),
{
    let c0 = choose|c: Cell| g.holds(c) && !#[trigger] g.no_hidden_single(c);
    let c = lemma_first_before(g, c0);
    let d = choose|d: u16| g.hidden_single(c, d);
    (c, d)
}

/// The rank of a cell in reading order.
pub open spec fn rank(g: Grid, c: Cell) -> int {
    c.row * g.size() + c.col
}

proof fn lemma_rank(g: Grid, a: Cell, b: Cell)
    requires
        g.holds(a),
        g.holds(b),
        crate::misc::before(a, b),
    ensures
        0 <= rank(g, a) < rank(g, b),
{
    let n = g.size();
    assert(a.row * n + a.col < b.row * n + b.col && 0 <= a.row * n) by (nonlinear_arith)
        requires
            a.row < b.row || (a.row == b.row && a.col < b.col),
            0 <= a.col < n,
            0 <= b.col < n,
            0 <= a.row,
    ;
}

proof fn lemma_first_before(g: Grid, c0: Cell) -> (c: Cell)
    requires
        g.holds(c0),
        !g.no_hidden_single(c0),
    ensures
        g.holds(c),
        !g.no_hidden_single(c),
        forall|b: Cell|
            g.holds(b) && crate::misc::before(b, c) ==> #[trigger] g.no_hidden_single(b),
    decreases rank(g, c0),
{
    if forall|b: Cell| g.holds(b) && crate::misc::before(b, c0) ==>
        #[trigger] g.no_hidden_single(b) {
        c0
    } else {
        let b = choose|b: Cell| g.holds(b) && crate::misc::before(b, c0)
            && !#[trigger] g.no_hidden_single(b);
        lemma_rank(g, b, c0);
        lemma_first_before(g, b)
    }
}

} // verus!
