//! Soundness: no technique strikes a candidate that a solution holds. So a
//! board that has a solution keeps it through every step of the solver, and
//! the solver never runs into a contradiction on it.

use vstd::prelude::*;
use crate::bits::{
    bit, count, disjoint, full_mask, lemma_bit, lemma_nonzero_offers, lemma_ops, lemma_within,
    offers, single, within,
};
use crate::board::Cell;
use crate::colouring::{lemma_pair_nodes, lemma_unit_sees, Candidate};
use crate::grid::{lemma_refines_equal, Grid, Strike};
use crate::intersections::{lemma_outside, TargetView};
use crate::misc::{lemma_unit_on_grid, Unit};
use crate::ywings::YWing;

verus! {

impl Grid {
    /// Some cell of the unit is solved with `d`.
    pub open spec fn unit_holds(self, u: Unit, d: u16) -> bool {
        exists|t: int|
            0 <= t < self.unit_cells(u).len() && self.at(#[trigger] self.unit_cells(u)[t]) == bit(d)
    }

    /// Every unit holds every digit of the grid.
    pub open spec fn complete(self) -> bool {
        forall|u: Unit, d: u16|
            self.valid_unit(u) && 1 <= d <= self.size() ==> #[trigger] self.unit_holds(u, d)
    }

    /// No cell offers anything but the digits of the grid.
    pub open spec fn bounded(self) -> bool {
        forall|c: Cell, d: u16|
            self.holds(c) && #[trigger] offers(self.at(c), d) ==> 1 <= d <= self.size()
    }

    /// `self` is a solution of `g`: every cell is solved with a candidate
    /// that `g` offers, no two cells that see each other hold the same
    /// digit, and every unit holds every digit.
    pub open spec fn solution_of(self, g: Grid) -> bool {
        &&& self.wf()
        &&& self.solved()
        &&& self.consistent()
        &&& self.complete()
        &&& self.refines(g)
    }

    /// Every cell lies in some region.
    pub open spec fn covered(self) -> bool {
        forall|c: Cell|
            self.holds(c) ==> exists|k: usize|
                k < self.regions.len() && #[trigger] self.regions[k as int].contains(c)
    }

    /// Every region is a list that a machine can hold.
    pub open spec fn listable(self) -> bool {
        forall|i: int|
            0 <= i < self.regions.len() ==> (#[trigger] self.regions[i]).len() <= usize::MAX
    }

    /// A grid on which the techniques are sound: well-formed, with no
    /// candidates but its digits, every cell in a region, and regions that a
    /// machine can hold.
    pub open spec fn proper(self) -> bool {
        self.wf() && self.bounded() && self.covered() && self.listable()
    }

    /// The solution holds none of the strikes.
    pub open spec fn spares(self, strikes: Set<Strike>) -> bool {
        forall|c: Cell, v: u16|
            #[trigger] strikes.contains((c, v)) && self.holds(c) ==> self.at(c) != bit(v)
    }
}

/// The digit of a cell of a solution, which the grid offers there.
pub proof fn lemma_solution_digit(s: Grid, g: Grid, c: Cell) -> (d: u16)
    requires
        s.solution_of(g),
        g.holds(c),
    ensures
        d < 16,
        s.at(c) == bit(d),
        offers(s.at(c), d),
        offers(g.at(c), d),
        forall|e: u16| offers(s.at(c), e) ==> e == d,
{
    lemma_bit();
    lemma_within();
    assert(single(s.at(c)));
    let d = lemma_nonzero_offers(s.at(c));
    assert(within(s.at(c), g.at(c)));
    d
}

/// Two cells of a solution that see each other hold different digits.
pub proof fn lemma_solution_peers(s: Grid, g: Grid, a: Cell, b: Cell)
    requires
        s.solution_of(g),
        g.holds(a),
        g.holds(b),
        a != b,
        g.sees(a, b),
    ensures
        s.at(a) != s.at(b),
{
    lemma_bit();
    assert(s.settled(a));
    assert(s.sees(a, b));
    assert(disjoint(s.at(b), s.at(a)));
    let d = lemma_solution_digit(s, g, a);
}

/// A cascade whose strikes spare a solution succeeds and keeps the solution.
pub proof fn lemma_sound_cascade(g: Grid, strikes: Set<Strike>, ok: bool, out: Grid, s: Grid)
    requires
        s.solution_of(g),
        s.spares(strikes),
        g.cascades(strikes, ok, out),
    ensures
        ok,
        s.solution_of(out),
{
    lemma_bit();
    assert forall|c: Cell, v: u16| #[trigger] strikes.contains((c, v)) && g.holds(c) implies
        !offers(
        s.at(c),
        v,
    ) by {
        let d = lemma_solution_digit(s, g, c);
    }
    assert forall|c: Cell| g.holds(c) && !single(g.at(c)) implies #[trigger] s.settled(c) by {}
    assert(g.admits(strikes, s));
}

/// Y-wings spare every solution.
pub proof fn lemma_ywings_sound(g: Grid, s: Grid)
    requires
        g.wf(),
        s.solution_of(g),
    ensures
        s.spares(g.ywing_strikes()),
{
    assert forall|c: Cell, v: u16| #[trigger] g.ywing_strikes().contains((c, v))
        && s.holds(c) implies
        s.at(
        c,
    ) != bit(v) by {
        let y = choose|y: YWing| #[trigger] g.is_ywing(y) && (c, v) == (y.target, y.val);
        assert(c == y.target && v == y.val);
        if s.at(c) == bit(v) {
            let p = g.at(y.origin);
            let w1 = g.at(y.foci.0);
            let w2 = g.at(y.foci.1);
            lemma_xor_twice(p, w1);
            lemma_xor_twice(p, w2);
            crate::bits::lemma_count_zero(w1);
            crate::bits::lemma_count_zero(w2);
            assert(y.origin != y.foci.0);
            assert(y.origin != y.foci.1);
            let o = lemma_solution_digit(s, g, y.origin);
            let a = lemma_solution_digit(s, g, y.foci.0);
            let b = lemma_solution_digit(s, g, y.foci.1);
            lemma_solution_peers(s, g, y.foci.0, y.target);
            lemma_solution_peers(s, g, y.foci.1, y.target);
            lemma_solution_peers(s, g, y.origin, y.foci.0);
            lemma_solution_peers(s, g, y.origin, y.foci.1);
            assert(a != v);
            assert(b != v);
            lemma_wing_masks(p, w1, w2, o, a, b, v);
        }
    }
}

/// Three masks of two candidates each in which every digit occurs in none
/// or two: if the wings hold `a` and `b`, neither of them the digit `v`
/// that the wings share, the pivot holds `a` or `b`.
proof fn lemma_wing_masks(p: u16, w1: u16, w2: u16, o: u16, a: u16, b: u16, v: u16)
    requires
        count(p) == 2,
        count(w1) == 2,
        count(w2) == 2,
        p ^ w1 ^ w2 == 0,
        offers(p, o),
        offers(w1, a),
        offers(w2, b),
        offers(w1 & w2, v),
        a != v,
        b != v,
    ensures
        o == a || o == b,
{
    lemma_ops();
    lemma_bit();
    // w1 = {a, v}, w2 = {b, v}
    lemma_two_digits(w1, a, v);
    lemma_two_digits(w2, b, v);
    assert(offers(p ^ w1 ^ w2, o) == ((offers(p, o) != offers(w1, o)) != offers(w2, o)));
    if o != a && o != b {
        if o == v {
            assert(offers(w1, o) && offers(w2, o));
        } else {
            assert(!offers(w1, o));
            assert(!offers(w2, o));
        }
    }
}

/// A mask of two candidates offers nothing beside them.
pub proof fn lemma_two_digits(m: u16, a: u16, b: u16)
    requires
        count(m) == 2,
        offers(m, a),
        offers(m, b),
        a != b,
    ensures
        forall|e: u16| offers(m, e) ==> e == a || e == b,
{
    crate::bits::lemma_clear();
    crate::bits::lemma_count_clear(m, a);
    let rest = crate::bits::clear(m, a);
    crate::bits::lemma_count_single(rest);
    lemma_bit();
    assert(offers(rest, b));
    assert(rest == bit(b));
    assert forall|e: u16| offers(m, e) implies e == a || e == b by {
        if e != a {
            assert(offers(rest, e));
            assert(offers(bit(b), e));
        }
    }
}

/// A mask that cancels itself out of a sum leaves the other mask.
proof fn lemma_xor_twice(p: u16, w: u16)
    by (bit_vector)
    ensures
        p ^ p ^ w == w,
        p ^ w ^ p == w,
{
}

/// Intersections spare every solution.
pub proof fn lemma_intersections_sound(g: Grid, s: Grid)
    requires
        g.wf(),
        s.solution_of(g),
    ensures
        s.spares(g.intersection_strikes()),
{
    assert forall|c: Cell, v: u16| #[trigger]
        g.intersection_strikes().contains((c, v)) && s.holds(c) implies s.at(c) != bit(v) by {
        let t = choose|t: TargetView| #[trigger] g.is_intersection(t) && t.cells.contains(c)
            && v == t.val;
        let (origin, target) = choose|origin: Unit, target: Unit| g.intersection_at(origin, target, t);
        lemma_outside(g.unit_cells(target), g.unit_cells(origin), c);
        if s.at(c) == bit(v) {
            assert(s.unit_cells(origin) == g.unit_cells(origin));
            assert(s.unit_holds(origin, v));
            let i = choose|i: int|
                0 <= i < s.unit_cells(origin).len()
                    && s.at(#[trigger] s.unit_cells(origin)[i]) == bit(v);
            let h = g.unit_cells(origin)[i];
            lemma_unit_on_grid(g, origin, i);
            let d = lemma_solution_digit(s, g, h);
            lemma_bit();
            assert(offers(g.at(h), v));
            assert(g.unit_cells(target).contains(h));
            assert(g.unit_cells(origin).contains(h));
            lemma_unit_sees(g, target, h, c);
            lemma_solution_peers(s, g, h, c);
        }
    }
}

/// A solution holds the digit of a placement: then it is spared by what
/// the placement strikes.
pub proof fn lemma_placement_sound(g: Grid, s: Grid, c: Cell, d: u16)
    requires
        s.solution_of(g),
        g.holds(c),
        d < 16,
        s.at(c) == bit(d),
    ensures
        s.spares(g.place_strikes(c, d)),
{
    lemma_bit();
    assert forall|x: Cell, v: u16| #[trigger] g.place_strikes(c, d).contains((x, v))
        && s.holds(x) implies
        s.at(
        x,
    ) != bit(v) by {
        if x == c {
            assert(offers(bit(d), v) == (v == d));
        } else {
            lemma_solution_peers(s, g, c, x);
        }
    }
}

/// The hidden single is the digit of its cell in every solution.
pub proof fn lemma_hidden_single_sound(g: Grid, s: Grid, c: Cell, d: u16)
    requires
        g.wf(),
        g.bounded(),
        g.covered(),
        s.solution_of(g),
        g.hidden_single(c, d),
    ensures
        s.at(c) == bit(d),
{
    lemma_bit();
    if g.hidden_in_row(c, d) {
        let u = Unit::Row(c.row);
        assert(s.unit_cells(u) == g.unit_cells(u));
        assert(s.unit_holds(u, d));
        let t = choose|t: int| 0 <= t < s.unit_cells(u).len()
            && s.at(#[trigger] s.unit_cells(u)[t]) == bit(d);
        let h = g.unit_cells(u)[t];
        lemma_unit_on_grid(g, u, t);
        let e = lemma_solution_digit(s, g, h);
        if h != c {
            assert(!seq![c.col].contains(h.col));
            assert(offers(g.at(Cell { row: c.row, col: h.col }), d));
            assert(g.row_offers(c.row, seq![c.col], d));
        }
    } else if g.hidden_in_col(c, d) {
        let u = Unit::Col(c.col);
        assert(s.unit_cells(u) == g.unit_cells(u));
        assert(s.unit_holds(u, d));
        let t = choose|t: int| 0 <= t < s.unit_cells(u).len()
            && s.at(#[trigger] s.unit_cells(u)[t]) == bit(d);
        let h = g.unit_cells(u)[t];
        lemma_unit_on_grid(g, u, t);
        let e = lemma_solution_digit(s, g, h);
        if h != c {
            assert(!seq![c.row].contains(h.row));
            assert(offers(g.at(Cell { row: h.row, col: c.col }), d));
            assert(g.col_offers(c.col, seq![c.row], d));
        }
    } else {
        assert(g.hidden_in_reg(c, d));
        let k = choose|k: usize| k < g.regions.len() && #[trigger] g.regions[k as int].contains(c);
        let u = Unit::Reg(k);
        assert(s.unit_cells(u) == g.unit_cells(u));
        assert(s.unit_holds(u, d));
        let t = choose|t: int| 0 <= t < s.unit_cells(u).len()
            && s.at(#[trigger] s.unit_cells(u)[t]) == bit(d);
        let h = g.regions[k as int][t];
        lemma_unit_on_grid(g, u, t);
        let e = lemma_solution_digit(s, g, h);
        if h != c {
            assert(!seq![c].contains(h));
            assert(offers(g.at(g.regions[k as int][t]), d));
            assert(g.box_offers(k as int, seq![c], d));
            assert(g.reg_offers(c, seq![c], d));
        }
    }
}

/// The first hidden single spares every solution.
pub proof fn lemma_singles_sound(g: Grid, s: Grid)
    requires
        g.wf(),
        g.bounded(),
        g.covered(),
        s.solution_of(g),
    ensures
        s.spares(g.single_strikes()),
{
    assert forall|x: Cell, v: u16| #[trigger] g.single_strikes().contains((x, v))
        && s.holds(x) implies
        s.at(
        x,
    ) != bit(v) by {
        let (c, d) = choose|c: Cell, d: u16| #[trigger]
            g.first_hidden_single(c, d) && g.place_strikes(c, d).contains((x, v));
        lemma_hidden_single_sound(g, s, c, d);
        lemma_placement_sound(g, s, c, d);
    }
}

/// The nodes that a solution holds.
pub open spec fn held_by(g: Grid, s: Grid) -> Set<Candidate> {
    Set::new(|x: Candidate| g.is_node(x) && s.at(x.0) == bit(x.1))
}

/// The nodes that a solution holds are a colouring.
pub proof fn lemma_solution_colours(g: Grid, s: Grid)
    requires
        g.wf(),
        s.solution_of(g),
    ensures
        g.colouring(held_by(g, s)),
{
    lemma_bit();
    let t = held_by(g, s);
    assert forall|x: Candidate, y: Candidate| #[trigger] t.contains(x)
        && #[trigger] t.contains(y) implies
        !g.linked(
        x,
        y,
    ) by {
        if g.linked(x, y) {
            if x.0 == y.0 {
                assert(offers(bit(x.1), y.1) == (y.1 == x.1));
            } else {
                lemma_solution_peers(s, g, x.0, y.0);
            }
        }
    }
    assert forall|x: Candidate, y: Candidate| #[trigger] g.paired(x, y) implies
        t.contains(x) || t.contains(
        y,
    ) by {
        lemma_pair_nodes(g, x, y);
        let u = choose|u: Unit| g.alone_in(u, x.0, y.0, x.1);
        assert(s.unit_cells(u) == g.unit_cells(u));
        assert(s.unit_holds(u, x.1));
        let i = choose|i: int|
            0 <= i < s.unit_cells(u).len() && s.at(#[trigger] s.unit_cells(u)[i]) == bit(x.1);
        let h = g.unit_cells(u)[i];
        lemma_unit_on_grid(g, u, i);
        let e = lemma_solution_digit(s, g, h);
        assert(offers(g.at(h), x.1));
    }
}

/// Colouring spares every solution.
pub proof fn lemma_colouring_sound(g: Grid, s: Grid)
    requires
        g.wf(),
        s.solution_of(g),
    ensures
        s.spares(g.colouring_strikes()),
{
    lemma_bit();
    lemma_solution_colours(g, s);
    let t = held_by(g, s);
    assert forall|c: Cell, v: u16| #[trigger] g.colouring_strikes().contains((c, v))
        && s.holds(c) implies
        s.at(
        c,
    ) != bit(v) by {
        if g.always_seen((c, v)) {
            assert(g.seen_in(t, (c, v)));
            let y = choose|y: Candidate| #[trigger] t.contains(y) && y.1 == v && y.0 != c
                && g.sees(c, y.0);
            lemma_solution_peers(s, g, c, y.0);
        } else {
            let x = choose|x: Candidate| #[trigger]
                g.always_true(x) && g.place_strikes(x.0, x.1).contains((c, v));
            assert(t.contains(x));
            lemma_placement_sound(g, s, x.0, x.1);
        }
    }
}

/// The map takes the value `j` at some number below `k`.
pub open spec fn takes(k: int, f: spec_fn(int) -> int, j: int) -> bool {
    exists|i: int| 0 <= i < k && #[trigger] f(i) == j
}

/// The pigeonhole principle: a map of the numbers below `k` into themselves
/// that takes no value twice takes every value.
pub proof fn lemma_pigeonhole(k: int, f: spec_fn(int) -> int)
    requires
        forall|i: int| 0 <= i < k ==> 0 <= #[trigger] f(i) < k,
        forall|i: int, j: int| 0 <= i < j < k ==> #[trigger] f(i) != #[trigger] f(j),
    ensures
        forall|j: int| 0 <= j < k ==> #[trigger] takes(k, f, j),
    decreases k,
{
    if k > 0 {
        let m = f(k - 1);
        let g = |i: int|
            if f(i) < m {
                f(i)
            } else {
                f(i) - 1
            };
        assert forall|i: int| 0 <= i < k - 1 implies 0 <= #[trigger] g(i) < k - 1 by {
            assert(f(i) != f(k - 1));
        }
        assert forall|i: int, j: int|
            0 <= i < j < k - 1 implies #[trigger] g(i) != #[trigger] g(j) by {
            assert(f(i) != f(j));
            assert(f(i) != f(k - 1));
            assert(f(j) != f(k - 1));
        }
        lemma_pigeonhole(k - 1, g);
        assert forall|j: int| 0 <= j < k implies #[trigger] takes(k, f, j) by {
            if j == m {
                assert(f(k - 1) == j);
            } else if j < m {
                assert(takes(k - 1, g, j));
                let i = choose|i: int| 0 <= i < k - 1 && #[trigger] g(i) == j;
                assert(f(i) == j);
            } else {
                assert(takes(k - 1, g, j - 1));
                let i = choose|i: int| 0 <= i < k - 1 && #[trigger] g(i) == j - 1;
                assert(f(i) != f(k - 1));
                assert(f(i) == j);
            }
        }
    }
}

/// The digit of a solved cell.
pub open spec fn digit_of(s: Grid, c: Cell) -> u16 {
    choose|d: u16| d < 16 && s.at(c) == bit(d)
}

/// Naked subsets spare every solution.
pub proof fn lemma_nakeds_sound(g: Grid, s: Grid, k: int)
    requires
        g.wf(),
        s.solution_of(g),
    ensures
        s.spares(g.naked_strikes(k)),
{
    assert forall|t: Cell, v: u16| #[trigger] g.naked_strikes(k).contains((t, v))
        && s.holds(t) implies
        s.at(
        t,
    ) != bit(v) by {
        let p = choose|p: crate::nakeds::GroupView| #[trigger]
            g.is_naked(k, p) && g.naked_group_strikes(p).contains((t, v));
        lemma_naked_group(g, s, k, p, t, v);
    }
}

/// The cells of a group that share a unit with `t` see each other and `t`.
proof fn lemma_group_sees(g: Grid, p: crate::nakeds::GroupView, t: Cell, i: int, j: int)
    requires
        g.is_group(p),
        exists|v: u16| g.naked_group_strikes(p).contains((t, v)),
        0 <= i < p.cells.len(),
        0 <= j < p.cells.len(),
    ensures
        g.sees(p.cells[i], p.cells[j]),
        g.sees(p.cells[i], t),
{
    let v = choose|v: u16| g.naked_group_strikes(p).contains((t, v));
    if p.relation.row && t.row == p.cells[0].row {
    } else if p.relation.col && t.col == p.cells[0].col {
    } else {
        let r = choose|r: int|
            0 <= r < g.regions.len() && #[trigger] g.region_has_all(r, p.cells)
                && g.regions[r].contains(t);
        assert(g.regions[r].contains(p.cells[i]) && g.regions[r].contains(p.cells[j]));
    }
}

/// The digit of a cell of a naked subset in a solution is one of the subset's digits.
proof fn lemma_naked_digit(g: Grid, s: Grid, k: int, p: crate::nakeds::GroupView, i: int)
    requires
        g.wf(),
        s.solution_of(g),
        g.is_naked(k, p),
        0 <= i < k,
    ensures
        digit_of(s, p.cells[i]) < 16,
        s.at(p.cells[i]) == bit(digit_of(s, p.cells[i])),
        offers(p.vals, digit_of(s, p.cells[i])),
        crate::bits::rank(p.vals, digit_of(s, p.cells[i])) < k,
{
    let d = lemma_solution_digit(s, g, p.cells[i]);
    let e = digit_of(s, p.cells[i]);
    assert(s.at(p.cells[i]) == bit(e));
    assert(offers(bit(d), e) == (e == d)) by {
        lemma_bit();
    }
    assert(offers(bit(e), e)) by {
        lemma_bit();
    }
    assert(g.union_offers(p.cells, d));
    crate::bits::lemma_rank(p.vals, d, d);
}

/// Two cells of a naked subset hold different digits in a solution.
proof fn lemma_naked_differ(
    g: Grid,
    s: Grid,
    k: int,
    p: crate::nakeds::GroupView,
    t: Cell,
    i: int,
    j: int,
)
    requires
        g.wf(),
        s.solution_of(g),
        g.is_naked(k, p),
        exists|v: u16| g.naked_group_strikes(p).contains((t, v)),
        0 <= i < j < k,
    ensures
        crate::bits::rank(p.vals, digit_of(s, p.cells[i])) != crate::bits::rank(
            p.vals,
            digit_of(s, p.cells[j]),
        ),
{
    lemma_naked_digit(g, s, k, p, i);
    lemma_naked_digit(g, s, k, p, j);
    crate::bits::lemma_rank(p.vals, digit_of(s, p.cells[i]), digit_of(s, p.cells[j]));
    lemma_group_sees(g, p, t, i, j);
    assert(crate::misc::before(p.cells[i], p.cells[j]));
    lemma_solution_peers(s, g, p.cells[i], p.cells[j]);
}

proof fn lemma_naked_group(g: Grid, s: Grid, k: int, p: crate::nakeds::GroupView, t: Cell, v: u16)
    requires
        g.wf(),
        s.solution_of(g),
        g.is_naked(k, p),
        g.naked_group_strikes(p).contains((t, v)),
        s.holds(t),
    ensures
        s.at(t) != bit(v),
{
    let f = |i: int| crate::bits::rank(p.vals, digit_of(s, p.cells[i])) as int;
    assert forall|i: int| 0 <= i < k implies 0 <= #[trigger] f(i) < k by {
        lemma_naked_digit(g, s, k, p, i);
    }
    assert forall|i: int, j: int| 0 <= i < j < k implies #[trigger] f(i) != #[trigger] f(j) by {
        lemma_naked_differ(g, s, k, p, t, i, j);
    }
    lemma_pigeonhole(k, f);
    crate::bits::lemma_rank(p.vals, v, v);
    let j = crate::bits::rank(p.vals, v) as int;
    assert(takes(k, f, j));
    let i = choose|i: int| 0 <= i < k && #[trigger] f(i) == j;
    lemma_naked_digit(g, s, k, p, i);
    crate::bits::lemma_rank(p.vals, digit_of(s, p.cells[i]), v);
    assert(digit_of(s, p.cells[i]) == v);
    lemma_group_sees(g, p, t, i, i);
    assert(p.cells.contains(p.cells[i]));
    lemma_solution_peers(s, g, p.cells[i], t);
}

/// The candidate of `m` at place `r`.
pub open spec fn digit_at_rank(m: u16, r: int) -> u16 {
    choose|d: u16| offers(m, d) && crate::bits::rank(m, d) == r
}

/// Hidden subsets spare every solution.
pub proof fn lemma_hiddens_sound(g: Grid, s: Grid, k: int)
    requires
        g.wf(),
        g.listable(),
        s.solution_of(g),
    ensures
        s.spares(g.hidden_strikes(k)),
{
    assert forall|c: Cell, v: u16| #[trigger] g.hidden_strikes(k).contains((c, v))
        && s.holds(c) implies
        s.at(
        c,
    ) != bit(v) by {
        let p = choose|p: crate::hiddens::GroupView| #[trigger]
            g.is_hidden(k, p) && crate::apply::hidden_group_strikes(p).contains((c, v));
        let (u, idx) = choose|u: Unit, idx: Seq<usize>| g.hidden_at(k, u, idx, p);
        let j = choose|j: int| 0 <= j < p.cells.len() && p.cells[j] == c;
        lemma_hidden_group(g, s, k, u, idx, p, j);
        lemma_bit();
    }
}

proof fn lemma_hidden_group(
    g: Grid,
    s: Grid,
    k: int,
    u: Unit,
    idx: Seq<usize>,
    p: crate::hiddens::GroupView,
    j: int,
)
    requires
        g.wf(),
        g.listable(),
        s.solution_of(g),
        g.hidden_at(k, u, idx, p),
        0 <= j < k,
    ensures
        exists|d: u16| offers(p.vals, d) && s.at(p.cells[j]) == bit(d),
{
    lemma_bit();
    let uc = g.unit_cells(u);
    let f = |r: int|
        choose|i: int| 0 <= i < k && s.at(uc[idx[i] as int]) == bit(digit_at_rank(p.vals, r));
    assert forall|r: int| 0 <= r < k implies offers(p.vals, #[trigger] digit_at_rank(p.vals, r))
        && crate::bits::rank(p.vals, digit_at_rank(p.vals, r)) == r && 0 <= f(r) < k && s.at(
        uc[idx[f(r)] as int],
    ) == bit(digit_at_rank(p.vals, r)) by {
        let d0 = crate::bits::lemma_rank_onto(p.vals, r as nat);
        let d = digit_at_rank(p.vals, r);
        assert(s.unit_cells(u) == uc);
        assert(s.unit_holds(u, d));
        let t = choose|t: int| 0 <= t < s.unit_cells(u).len()
            && s.at(#[trigger] s.unit_cells(u)[t]) == bit(d);
        lemma_unit_on_grid(g, u, t);
        let e = lemma_solution_digit(s, g, uc[t]);
        assert(offers(g.at(uc[t]), d));
        assert(uc.len() <= usize::MAX) by {
            match u {
                Unit::Reg(q) => {
                    assert(g.regions[q as int].len() <= usize::MAX);
                },
                _ => {},
            }
        }
        assert(idx.contains(t as usize));
        let i = choose|i: int| 0 <= i < idx.len() && idx[i] == t as usize;
        assert(s.at(uc[idx[i] as int]) == bit(d));
    }
    assert forall|a: int, b: int| 0 <= a < b < k implies #[trigger] f(a) != #[trigger] f(b) by {
        let da = digit_at_rank(p.vals, a);
        let db = digit_at_rank(p.vals, b);
        assert(offers(p.vals, da) && offers(p.vals, db));
        if f(a) == f(b) {
            assert(offers(bit(da), db) == (db == da));
        }
    }
    assert forall|r: int| 0 <= r < k implies 0 <= #[trigger] f(r) < k by {
        assert(offers(p.vals, digit_at_rank(p.vals, r)));
    }
    lemma_pigeonhole(k, f);
    assert(takes(k, f, j));
    let r = choose|r: int| 0 <= r < k && #[trigger] f(r) == j;
    assert(offers(p.vals, digit_at_rank(p.vals, r)));
    assert(p.cells[j] == uc[idx[j] as int]);
}

/// The cell where a line to clear and a confining line of a fish meet.
pub open spec fn crossing(by_cols: bool, clear: usize, confine: usize) -> Cell {
    if by_cols {
        Cell { row: clear, col: confine }
    } else {
        Cell { row: confine, col: clear }
    }
}

/// Fish spare every solution.
pub proof fn lemma_fish_sound(g: Grid, s: Grid, k: int)
    requires
        g.wf(),
        s.solution_of(g),
    ensures
        s.spares(g.fish_strikes(k)),
{
    assert forall|c: Cell, v: u16| #[trigger] g.fish_strikes(k).contains((c, v))
        && s.holds(c) implies
        s.at(
        c,
    ) != bit(v) by {
        let p = choose|p: crate::xwings::FishView| #[trigger]
            g.is_fish(k, p) && crate::apply::fish_strikes_of(p).contains((c, v));
        let clear = if p.clear_rows {
            p.rows
        } else {
            p.cols
        };
        let confine = if p.clear_rows {
            p.cols
        } else {
            p.rows
        };
        let a = if p.clear_rows {
            c.row
        } else {
            c.col
        };
        let b = if p.clear_rows {
            c.col
        } else {
            c.row
        };
        assert(clear.contains(a) && !confine.contains(b));
        let i = choose|i: int| 0 <= i < clear.len() && clear[i] == a;
        let j = lemma_fish_line(g, s, k, p, i);
        let h = crossing(p.clear_rows, a, confine[j]);
        assert(c == crossing(p.clear_rows, a, b));
        assert(h != c);
        lemma_solution_peers(s, g, h, c);
    }
}

/// In a solution every line of a fish that is to be cleared holds the
/// digit where it meets one of the confining lines.
proof fn lemma_fish_line(g: Grid, s: Grid, k: int, p: crate::xwings::FishView, i: int) -> (j: int)
    requires
        g.wf(),
        s.solution_of(g),
        g.is_fish(k, p),
        0 <= i < k,
    ensures
        0 <= j < k,
        p.clear_rows ==> s.at(crossing(true, p.rows[i], p.cols[j])) == bit(p.val),
        !p.clear_rows ==> s.at(crossing(false, p.cols[i], p.rows[j])) == bit(p.val),
{
    lemma_bit();
    let by_cols = p.clear_rows;
    let clear = if by_cols {
        p.rows
    } else {
        p.cols
    };
    let confine = if by_cols {
        p.cols
    } else {
        p.rows
    };
    let v = p.val;
    // for each confining line, where it holds the digit
    let f = |b: int| choose|a: int| 0 <= a < k
        && s.at(crossing(by_cols, clear[a], confine[b])) == bit(v);
    assert forall|b: int| 0 <= b < k implies 0 <= #[trigger] f(b) < k && s.at(
        crossing(by_cols, clear[f(b)], confine[b]),
    ) == bit(v) by {
        let u = if by_cols {
            Unit::Col(confine[b])
        } else {
            Unit::Row(confine[b])
        };
        assert(g.valid_unit(u));
        assert(s.unit_cells(u) == g.unit_cells(u));
        assert(s.unit_holds(u, v));
        let t = choose|t: int| 0 <= t < s.unit_cells(u).len()
            && s.at(#[trigger] s.unit_cells(u)[t]) == bit(v);
        let h = g.unit_cells(u)[t];
        assert(h == crossing(by_cols, t as usize, confine[b]));
        let e = lemma_solution_digit(s, g, h);
        assert(offers(g.at(h), v));
        if by_cols {
            assert(offers(g.at(Cell { row: t as usize, col: p.cols[b] }), v));
            assert(p.rows.contains(t as usize));
        } else {
            assert(offers(g.at(Cell { row: p.rows[b], col: t as usize }), v));
            assert(p.cols.contains(t as usize));
        }
        let a = choose|a: int| 0 <= a < clear.len() && clear[a] == t as usize;
        assert(s.at(crossing(by_cols, clear[a], confine[b])) == bit(v));
    }
    assert forall|x: int, y: int| 0 <= x < y < k implies #[trigger] f(x) != #[trigger] f(y) by {
        if f(x) == f(y) {
            let hx = crossing(by_cols, clear[f(x)], confine[x]);
            let hy = crossing(by_cols, clear[f(x)], confine[y]);
            assert(confine[x] < confine[y]);
            lemma_solution_peers(s, g, hx, hy);
        }
    }
    lemma_pigeonhole(k, f);
    assert(takes(k, f, i));
    choose|j: int| 0 <= j < k && #[trigger] f(j) == i
}

/// What a proper grid is refined to is proper.
pub proof fn lemma_proper_kept(g: Grid, out: Grid)
    requires
        g.proper(),
        out.wf(),
        out.refines(g),
    ensures
        out.proper(),
{
    lemma_within();
    assert forall|c: Cell, d: u16| out.holds(c) && #[trigger] offers(out.at(c), d) implies 1 <= d
        <= out.size() by {
        assert(within(out.at(c), g.at(c)));
        assert(offers(g.at(c), d));
    }
    assert(out.regions == g.regions);
    assert forall|c: Cell| out.holds(c) implies exists|k: usize|
        k < out.regions.len() && #[trigger] out.regions[k as int].contains(c) by {
        assert(g.holds(c));
        let k = choose|k: usize| k < g.regions.len() && #[trigger] g.regions[k as int].contains(c);
        assert(out.regions[k as int].contains(c));
    }
    assert forall|i: int| 0 <= i < out.regions.len() implies (#[trigger] out.regions[i]).len()
        <= usize::MAX by {
        assert(g.regions[i].len() <= usize::MAX);
    }
}

/// Every technique spares every solution.
pub proof fn lemma_technique_sound(g: Grid, s: Grid, t: int)
    requires
        g.proper(),
        s.solution_of(g),
        0 <= t < crate::solve::TECHNIQUES,
    ensures
        s.spares(g.technique_strikes(t)),
{
    if t == 0 {
        lemma_singles_sound(g, s);
    } else if t == 1 {
        lemma_nakeds_sound(g, s, 2);
    } else if t == 2 {
        lemma_hiddens_sound(g, s, 2);
    } else if t == 3 {
        lemma_nakeds_sound(g, s, 3);
    } else if t == 4 {
        lemma_hiddens_sound(g, s, 3);
    } else if t == 5 {
        lemma_fish_sound(g, s, 2);
    } else if t == 6 {
        lemma_ywings_sound(g, s);
    } else if t == 7 {
        lemma_intersections_sound(g, s);
    } else if t == 8 {
        lemma_nakeds_sound(g, s, 4);
    } else if t == 9 {
        lemma_hiddens_sound(g, s, 4);
    } else if t == 10 {
        lemma_fish_sound(g, s, 3);
    } else {
        lemma_colouring_sound(g, s);
    }
}

/// Placing a digit that a solution holds succeeds and keeps the solution.
pub proof fn lemma_place_sound(g: Grid, c: Cell, d: u16, ok: bool, out: Grid, s: Grid)
    requires
        g.wf(),
        s.solution_of(g),
        g.holds(c),
        d < 16,
        s.at(c) == bit(d),
        g.with_mask(c, bit(d)).cascades(g.peer_strikes(c, d), ok, out),
    ensures
        ok,
        s.solution_of(out),
{
    lemma_within();
    let g1 = g.with_mask(c, bit(d));
    assert forall|x: Cell| g1.holds(x) implies within(#[trigger] s.at(x), g1.at(x)) by {
        assert(within(s.at(x), g.at(x)));
        if x != c {
            assert(g1.at(x) == g.at(x));
        }
    }
    lemma_placement_sound(g, s, c, d);
    assert(s.spares(g.peer_strikes(c, d))) by {
        assert forall|x: Cell, v: u16| #[trigger] g.peer_strikes(c, d).contains((x, v)) && s.holds(
            x,
        ) implies s.at(x) != bit(v) by {
            assert(g.place_strikes(c, d).contains((x, v)));
        }
    }
    lemma_sound_cascade(g1, g.peer_strikes(c, d), ok, out, s);
}

proof fn lemma_run_sound(trace: Seq<Grid>, s: Grid, i: int)
    requires
        crate::solve::is_run(trace),
        trace[0].proper(),
        s.solution_of(trace[0]),
        0 <= i < trace.len(),
    ensures
        trace[i].proper(),
        s.solution_of(trace[i]),
    decreases i,
{
    if i > 0 {
        lemma_run_sound(trace, s, i - 1);
        let g = trace[i - 1];
        assert(g.steps_to(trace[i]));
        let t = choose|t: int| g.cheapest(t)
            && #[trigger] g.cascades(g.technique_strikes(t), true, trace[i]);
        lemma_technique_sound(g, s, t);
        lemma_sound_cascade(g, g.technique_strikes(t), true, trace[i], s);
        lemma_proper_kept(g, trace[i]);
    }
}

/// Soundness of the solver: on a proper grid that has a solution, `solve`
/// succeeds and what it leaves still has that solution. If it leaves
/// every cell solved, it leaves the solution.
pub proof fn lemma_solve_sound(start: Grid, s: Grid, ok: bool, out: Grid)
    requires
        start.proper(),
        s.solution_of(start),
        crate::solve::solves(start, ok, out),
    ensures
        ok,
        s.solution_of(out),
        out.solved() ==> out == s,
{
    let trace = choose|trace: Seq<Grid>|
        #[trigger] crate::solve::is_run(trace) && trace[0] == start && (if ok {
            trace.last() == out && out.stable()
        } else {
            trace.last().stuck()
        });
    let end = trace.last();
    lemma_run_sound(trace, s, trace.len() - 1);
    if end.stuck() {
        let t = choose|t: int|
            end.cheapest(t) && forall|x: Grid| !#[trigger] end.admits(end.technique_strikes(t), x);
        lemma_technique_sound(end, s, t);
        lemma_spared_admits(end, end.technique_strikes(t), s);
    }
    if ok && out.solved() {
        lemma_within();
        assert forall|c: Cell| out.holds(c) implies within(#[trigger] out.at(c), s.at(c)) by {
            assert(within(s.at(c), out.at(c)));
            assert(single(out.at(c)));
            assert(s.at(c) != 0);
        }
        lemma_refines_equal(out, s);
    }
}

/// A grid admits its solution for strikes that spare it.
pub proof fn lemma_spared_admits(g: Grid, strikes: Set<Strike>, s: Grid)
    requires
        s.solution_of(g),
        s.spares(strikes),
    ensures
        g.admits(strikes, s),
{
    lemma_bit();
    assert forall|c: Cell, v: u16| #[trigger] strikes.contains((c, v)) && g.holds(c) implies
        !offers(
        s.at(c),
        v,
    ) by {
        let d = lemma_solution_digit(s, g, c);
    }
    assert forall|c: Cell| g.holds(c) && !single(g.at(c)) implies #[trigger] s.settled(c) by {}
}

/// A grid on which every digit of the grid is still possible everywhere,
/// with the default boxes, is proper.
pub proof fn lemma_start_proper(size: int)
    requires
        size == 4 || size == 6 || size == 9,
    ensures
        crate::puzzle::start_grid(size).proper(),
{
    let w = crate::defaults::region_bounds(size).0 as int;
    let h = crate::defaults::region_bounds(size).1 as int;
    let g = crate::puzzle::start_grid(size);
    crate::defaults::lemma_boxes_on_grid(w, h);
    crate::bits::lemma_full_mask(size as u16);
    assert forall|c: Cell| g.holds(c) implies #[trigger] g.at(c) == full_mask(size as u16) by {}
    assert forall|i: int, j: int|
        0 <= i < g.regions.len() && 0 <= j < g.regions[i].len() implies g.holds(
        #[trigger] g.regions[i][j],
    ) by {}
    assert forall|c: Cell| g.holds(c) implies exists|k: usize|
        k < g.regions.len() && #[trigger] g.regions[k as int].contains(c) by {
        let k = crate::defaults::lemma_boxes_cover(w, h, c);
        assert(g.regions[(k as usize) as int].contains(c));
    }
}

/// Placing a digit of the grid on a proper grid leaves a proper grid.
pub proof fn lemma_place_proper(g: Grid, c: Cell, d: u16, ok: bool, out: Grid)
    requires
        g.proper(),
        g.holds(c),
        1 <= d <= g.size(),
        g.with_mask(c, bit(d)).cascades(g.peer_strikes(c, d), ok, out),
    ensures
        out.proper(),
{
    lemma_bit();
    let g1 = g.with_mask(c, bit(d));
    assert forall|x: Cell, e: u16| g1.holds(x) && #[trigger] offers(g1.at(x), e) implies 1 <= e
        <= g1.size() by {
        if x != c {
            assert(g1.at(x) == g.at(x));
        } else {
            assert(g1.at(x) == bit(d));
        }
    }
    assert forall|x: Cell| g1.holds(x) implies #[trigger] g1.at(x) != 0 by {
        if x != c {
            assert(g1.at(x) == g.at(x));
        }
    }
    assert forall|x: Cell| g1.holds(x) implies exists|k: usize|
        k < g1.regions.len() && #[trigger] g1.regions[k as int].contains(x) by {
        assert(g.holds(x));
        let k = choose|k: usize| k < g.regions.len() && #[trigger] g.regions[k as int].contains(x);
        assert(g1.regions[k as int].contains(x));
    }
    assert forall|i: int| 0 <= i < g1.regions.len() implies (#[trigger] g1.regions[i]).len()
        <= usize::MAX by {
        assert(g.regions[i].len() <= usize::MAX);
    }
    assert(g1.proper());
    lemma_proper_kept(g1, out);
}

} // verus!
