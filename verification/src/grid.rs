//! The mathematical model of a board, and the theory of cascading eliminations.
//!
//! A cascade never has a choice: every candidate it strikes is forced by the
//! rule that a solved cell's digit is absent from all its peers. So what a
//! cascade leaves is described without running it: the greatest grid below the
//! start in which the required candidates are gone and every cell that the
//! cascade solved is at rest; and the cascade fails exactly when there is no
//! such grid.

use vstd::prelude::*;
use crate::bits::{
    bit, clear, count, disjoint, lemma_bit, lemma_clear, lemma_count_clear, lemma_count_single,
    full_mask, lemma_count_within, lemma_count_zero, lemma_within, offers, single, within,
};
use crate::board::Cell;

verus! {

/// A candidate to strike: the digit is to leave the cell's mask.
pub type Strike = (Cell, u16);

/// A grid of candidate masks with its regions.
pub struct Grid {
    pub masks: Seq<Seq<u16>>,
    pub regions: Seq<Seq<Cell>>,
}

/// The number of candidates in a row of masks.
pub open spec fn row_weight(s: Seq<u16>) -> nat
    decreases s.len(),
{
    if s.len() == 0 {
        0
    } else {
        row_weight(s.drop_last()) + count(s.last())
    }
}

/// The number of candidates in rows of masks.
pub open spec fn rows_weight(m: Seq<Seq<u16>>) -> nat
    decreases m.len(),
{
    if m.len() == 0 {
        0
    } else {
        rows_weight(m.drop_last()) + row_weight(m.last())
    }
}

impl Grid {
    /// The side length.
    pub open spec fn size(self) -> int {
        self.masks.len() as int
    }

    /// The cell lies on the grid.
    pub open spec fn holds(self, c: Cell) -> bool {
        c.row < self.size() && c.col < self.size()
    }

    /// The candidate mask of a cell.
    pub open spec fn at(self, c: Cell) -> u16 {
        self.masks[c.row as int][c.col as int]
    }

    /// The grid is square, its digits fit a mask, and its regions lie on it.
    pub open spec fn shaped(self) -> bool {
        &&& 1 <= self.size() <= 15
        &&& forall|r: int| 0 <= r < self.size() ==> (#[trigger] self.masks[r]).len() == self.size()
        &&& forall|i: int, j: int|
            0 <= i < self.regions.len() && 0 <= j < self.regions[i].len() ==> self.holds(
                #[trigger] self.regions[i][j],
            )
    }

    /// A shaped grid in which no cell has run out of candidates.
    pub open spec fn wf(self) -> bool {
        &&& self.shaped()
        &&& forall|c: Cell| self.holds(c) ==> #[trigger] self.at(c) != 0
    }

    /// Some region holds both cells.
    pub open spec fn share_region(self, a: Cell, b: Cell) -> bool {
        exists|i: int|
            0 <= i < self.regions.len() && #[trigger] self.regions[i].contains(a)
                && self.regions[i].contains(b)
    }

    /// The two cells share a row, a column or a region.
    pub open spec fn sees(self, a: Cell, b: Cell) -> bool {
        a.row == b.row || a.col == b.col || self.share_region(a, b)
    }

    /// If the cell is solved, none of its peers still offers its digit.
    pub open spec fn settled(self, c: Cell) -> bool {
        single(self.at(c)) ==> forall|p: Cell|
            self.holds(p) && p != c && #[trigger] self.sees(c, p) ==> disjoint(
                self.at(p),
                self.at(c),
            )
    }

    /// Every cell is settled.
    pub open spec fn consistent(self) -> bool {
        forall|c: Cell| self.holds(c) ==> #[trigger] self.settled(c)
    }

    /// Every cell is solved.
    pub open spec fn solved(self) -> bool {
        forall|c: Cell| self.holds(c) ==> single(#[trigger] self.at(c))
    }

    /// Same geometry, and no cell offers a candidate that it does not offer in `g`.
    pub open spec fn refines(self, g: Grid) -> bool {
        &&& self.regions == g.regions
        &&& self.size() == g.size()
        &&& forall|c: Cell| g.holds(c) ==> within(#[trigger] self.at(c), g.at(c))
    }

    /// The grid with one mask replaced.
    pub open spec fn with_mask(self, c: Cell, m: u16) -> Grid {
        Grid {
            masks: self.masks.update(
                c.row as int,
                self.masks[c.row as int].update(c.col as int, m),
            ),
            regions: self.regions,
        }
    }

    /// The number of candidates on the whole grid.
    pub open spec fn weight(self) -> nat {
        rows_weight(self.masks)
    }

    /// `x` is a resting place for a cascade that starts at `self` and has to
    /// strike `strikes`: nothing was added, no cell is empty, the strikes are
    /// gone, and every cell that was open at the start is settled.
    pub open spec fn admits(self, strikes: Set<Strike>, x: Grid) -> bool {
        &&& x.wf()
        &&& x.refines(self)
        &&& forall|c: Cell, v: u16| #[trigger]
            strikes.contains((c, v)) && self.holds(c) ==> !offers(x.at(c), v)
        &&& forall|c: Cell| self.holds(c) && !single(self.at(c)) ==> #[trigger] x.settled(c)
    }

    /// What a cascade from `self` that strikes `strikes` delivers. It ends in
    /// `out`, which never adds a candidate nor empties a cell. It succeeds
    /// (`ok`) exactly when some grid admits the strikes, and `out` is then the
    /// greatest such grid.
    pub open spec fn cascades(self, strikes: Set<Strike>, ok: bool, out: Grid) -> bool {
        &&& out.wf()
        &&& out.refines(self)
        &&& ok ==> self.admits(strikes, out)
        &&& forall|x: Grid| #[trigger] self.admits(strikes, x) ==> ok && x.refines(out)
    }

    /// The strikes that placing `val` in `cell` asks for: `val` in every peer.
    pub open spec fn peer_strikes(self, cell: Cell, val: u16) -> Set<Strike> {
        Set::new(|e: Strike| e.1 == val && e.0 != cell && self.sees(cell, e.0))
    }

    /// The strikes that solving `cell` with `val` amounts to: every other
    /// digit in the cell, and `val` in every peer.
    pub open spec fn place_strikes(self, cell: Cell, val: u16) -> Set<Strike> {
        Set::new(
            |e: Strike|
                (e.0 == cell && e.1 != val && e.1 < 16) || self.peer_strikes(cell, val).contains(e),
        )
    }

    /// No peer of `cell` is solved by losing `val`, nor left empty: placing
    /// `val` in `cell` sets off no cascade.
    pub open spec fn quiet(self, cell: Cell, val: u16) -> bool {
        forall|p: Cell|
            self.holds(p) && p != cell && #[trigger] self.sees(cell, p) && offers(self.at(p), val)
                ==> self.at(p) != bit(val) && !single(clear(self.at(p), val))
    }

    /// The grid with `cell` solved with `val` and `val` struck from its peers.
    pub open spec fn placed(self, cell: Cell, val: u16) -> Grid {
        Grid {
            masks: Seq::new(
                self.masks.len(),
                |r: int|
                    Seq::new(
                        self.masks[r].len(),
                        |c: int|
                            if (Cell { row: r as usize, col: c as usize }) == cell {
                                bit(val)
                            } else if self.sees(cell, Cell { row: r as usize, col: c as usize }) {
                                clear(self.masks[r][c], val)
                            } else {
                                self.masks[r][c]
                            },
                    ),
            ),
            regions: self.regions,
        }
    }

    /// Some strike is still on offer.
    pub open spec fn offers_any(self, strikes: Set<Strike>) -> bool {
        exists|c: Cell, v: u16|
            #[trigger] strikes.contains((c, v)) && self.holds(c) && offers(self.at(c), v)
    }

    /// The strikes of `val` in the region with the given index, but for the cells in `ignore`.
    pub open spec fn box_strikes(self, index: int, ignore: Seq<Cell>, val: u16) -> Set<Strike> {
        Set::new(
            |e: Strike|
                e.1 == val && !ignore.contains(e.0) && 0 <= index < self.regions.len()
                    && self.regions[index].contains(e.0),
        )
    }

    /// The strikes of `val` in the regions of `cell`, but for the cells in `ignore`.
    pub open spec fn region_strikes(self, cell: Cell, ignore: Seq<Cell>, val: u16) -> Set<Strike> {
        Set::new(|e: Strike| e.1 == val && !ignore.contains(e.0) && self.share_region(cell, e.0))
    }
}

/// The grid of the given size and regions on which every cell offers every digit.
pub open spec fn fresh(size: int, regions: Seq<Seq<Cell>>) -> Grid {
    Grid {
        masks: Seq::new(
            size as nat, |r: int| Seq::new(size as nat, |c: int| full_mask(size as u16))
        ),
        regions,
    }
}

/// The strikes of `val` in a row, but for the columns in `ignore`.
pub open spec fn row_strikes(row: usize, ignore: Seq<usize>, val: u16) -> Set<Strike> {
    Set::new(|e: Strike| e.1 == val && e.0.row == row && !ignore.contains(e.0.col))
}

/// The strikes of `val` in a column, but for the rows in `ignore`.
pub open spec fn col_strikes(col: usize, ignore: Seq<usize>, val: u16) -> Set<Strike> {
    Set::new(|e: Strike| e.1 == val && e.0.col == col && !ignore.contains(e.0.row))
}

/// Refinement is transitive.
pub proof fn lemma_refines_trans(x: Grid, y: Grid, z: Grid)
    requires
        x.refines(y),
        y.refines(z),
    ensures
        x.refines(z),
{
    lemma_within();
    assert forall|c: Cell| z.holds(c) implies within(#[trigger] x.at(c), z.at(c)) by {
        assert(within(x.at(c), y.at(c)));
        assert(within(y.at(c), z.at(c)));
    }
}

/// A solved cell keeps its mask in every refinement that empties no cell.
pub proof fn lemma_refines_single(x: Grid, g: Grid, c: Cell)
    requires
        x.wf(),
        x.refines(g),
        g.holds(c),
        single(g.at(c)),
    ensures
        x.at(c) == g.at(c),
{
    lemma_within();
    assert(within(x.at(c), g.at(c)));
}

/// A solved and settled cell stays settled in every refinement that empties no cell.
pub proof fn lemma_settled_kept(x: Grid, g: Grid, c: Cell)
    requires
        x.wf(),
        x.refines(g),
        g.holds(c),
        single(g.at(c)),
        g.settled(c),
    ensures
        x.settled(c),
{
    lemma_within();
    lemma_refines_single(x, g, c);
    assert forall|p: Cell| x.holds(p) && p != c && #[trigger] x.sees(c, p) implies disjoint(
        x.at(p),
        x.at(c),
    ) by {
        assert(g.sees(c, p));
        assert(within(x.at(p), g.at(p)));
        assert(disjoint(g.at(p), g.at(c)));
    }
}

/// Fewer strikes are admitted wherever more are.
pub proof fn lemma_admits_fewer(g: Grid, more: Set<Strike>, fewer: Set<Strike>, x: Grid)
    requires
        g.admits(more, x),
        fewer.subset_of(more),
    ensures
        g.admits(fewer, x),
{
}

/// What a start admits, every wf grid between it and the start admits too.
pub proof fn lemma_admits_from(g: Grid, mid: Grid, strikes: Set<Strike>, x: Grid)
    requires
        g.admits(strikes, x),
        mid.wf(),
        mid.refines(g),
        x.refines(mid),
    ensures
        mid.admits(strikes, x),
{
    assert forall|c: Cell| mid.holds(c) && !single(mid.at(c)) implies #[trigger] x.settled(c) by {
        if single(g.at(c)) {
            lemma_refines_single(mid, g, c);
        }
    }
}

/// An admitted grid keeps every cell settled that was settled at the start.
pub proof fn lemma_admits_settles(g: Grid, strikes: Set<Strike>, x: Grid, c: Cell)
    requires
        g.admits(strikes, x),
        g.holds(c),
        g.settled(c),
    ensures
        x.settled(c),
{
    if single(g.at(c)) {
        lemma_settled_kept(x, g, c);
    }
}

/// Invariant of every cascade: a consistent grid stays consistent.
pub proof fn lemma_admits_consistent(g: Grid, strikes: Set<Strike>, x: Grid)
    requires
        g.admits(strikes, x),
        g.consistent(),
    ensures
        x.consistent(),
{
    assert forall|c: Cell| x.holds(c) implies #[trigger] x.settled(c) by {
        assert(g.settled(c));
        lemma_admits_settles(g, strikes, x, c);
    }
}

/// Two cascades in a row are one cascade for both sets of strikes.
pub proof fn lemma_admits_chain(g: Grid, s1: Set<Strike>, g1: Grid, s2: Set<Strike>, g2: Grid)
    requires
        g.admits(s1, g1),
        g1.admits(s2, g2),
    ensures
        g.admits(s1 + s2, g2),
{
    lemma_within();
    lemma_refines_trans(g2, g1, g);
    assert forall|c: Cell, v: u16| #[trigger]
        (s1 + s2).contains((c, v)) && g.holds(c) implies !offers(g2.at(c), v) by {
        if s1.contains((c, v)) {
            assert(!offers(g1.at(c), v));
            assert(within(g2.at(c), g1.at(c)));
        }
    }
    assert forall|c: Cell| g.holds(c) && !single(g.at(c)) implies #[trigger] g2.settled(c) by {
        assert(g1.settled(c));
        lemma_admits_settles(g1, s2, g2, c);
    }
}

/// A grid admits itself for strikes that are already gone.
pub proof fn lemma_admits_self(g: Grid, strikes: Set<Strike>)
    requires
        g.wf(),
        forall|c: Cell, v: u16|
            #[trigger] strikes.contains((c, v)) && g.holds(c) ==> !offers(g.at(c), v),
    ensures
        g.admits(strikes, g),
        g.cascades(strikes, true, g),
{
    lemma_within();
}

/// The first cascade succeeded and ended in `g1`; a second one starts there.
/// Together they deliver what one cascade for both sets of strikes delivers.
pub proof fn lemma_cascades_then(
    g: Grid,
    s1: Set<Strike>,
    g1: Grid,
    s2: Set<Strike>,
    ok: bool,
    g2: Grid,
)
    requires
        g.cascades(s1, true, g1),
        g1.cascades(s2, ok, g2),
    ensures
        g.cascades(s1 + s2, ok, g2),
{
    lemma_refines_trans(g2, g1, g);
    if ok {
        lemma_admits_chain(g, s1, g1, s2, g2);
    }
    assert forall|x: Grid| #[trigger] g.admits(s1 + s2, x) implies ok && x.refines(g2) by {
        lemma_admits_fewer(g, s1 + s2, s1, x);
        assert(x.refines(g1));
        lemma_admits_from(g, g1, s1 + s2, x);
        lemma_admits_fewer(g1, s1 + s2, s2, x);
    }
}

/// A cascade that failed fails for every larger set of strikes.
pub proof fn lemma_cascades_failed(g: Grid, fewer: Set<Strike>, more: Set<Strike>, out: Grid)
    requires
        g.cascades(fewer, false, out),
        fewer.subset_of(more),
    ensures
        g.cascades(more, false, out),
{
    assert forall|x: Grid| #[trigger] g.admits(more, x) implies false by {
        lemma_admits_fewer(g, more, fewer, x);
    }
}

/// Only what the strikes ask of cells on the grid matters.
pub proof fn lemma_cascades_same(g: Grid, s1: Set<Strike>, s2: Set<Strike>, ok: bool, out: Grid)
    requires
        g.cascades(s1, ok, out),
        forall|c: Cell, v: u16|
            g.holds(c) ==> (#[trigger] s1.contains((c, v)) == s2.contains((c, v))),
    ensures
        g.cascades(s2, ok, out),
{
    assert forall|x: Grid| #[trigger] g.admits(s2, x) implies g.admits(s1, x) by {
        assert forall|c: Cell, v: u16| #[trigger]
            s1.contains((c, v)) && g.holds(c) implies !offers(x.at(c), v) by {
            assert(s2.contains((c, v)));
        }
    }
    if ok {
        assert forall|c: Cell, v: u16| #[trigger]
            s2.contains((c, v)) && g.holds(c) implies !offers(out.at(c), v) by {
            assert(s1.contains((c, v)));
        }
    }
}

/// What a cascade delivers is determined: two outcomes for the same start and
/// the same strikes agree on success, and on the grid where they succeeded.
pub proof fn lemma_cascades_unique(
    g: Grid,
    strikes: Set<Strike>,
    ok1: bool,
    out1: Grid,
    ok2: bool,
    out2: Grid,
)
    requires
        g.cascades(strikes, ok1, out1),
        g.cascades(strikes, ok2, out2),
    ensures
        ok1 == ok2,
        ok1 ==> out1 == out2,
{
    if ok1 {
        assert(g.admits(strikes, out1));
        assert(out1.refines(out2));
        assert(out2.refines(out1));
        lemma_refines_equal(out1, out2);
    }
    if ok2 {
        assert(g.admits(strikes, out2));
    }
}

/// Two shaped grids that refine each other are equal.
pub proof fn lemma_refines_equal(x: Grid, y: Grid)
    requires
        x.shaped(),
        y.shaped(),
        x.refines(y),
        y.refines(x),
    ensures
        x == y,
{
    lemma_within();
    assert forall|r: int| 0 <= r < x.size() implies #[trigger] x.masks[r] == y.masks[r] by {
        assert forall|k: int| 0 <= k < x.size() implies x.masks[r][k] == y.masks[r][k] by {
            let c = Cell { row: r as usize, col: k as usize };
            assert(within(x.at(c), y.at(c)));
            assert(within(y.at(c), x.at(c)));
        }
        assert(x.masks[r] =~= y.masks[r]);
    }
    assert(x.masks =~= y.masks);
}

/// Invariant of every placement: a consistent grid stays consistent.
pub proof fn lemma_place_consistent(g: Grid, cell: Cell, val: u16, x: Grid)
    requires
        g.wf(),
        g.holds(cell),
        val < 16,
        g.consistent(),
        g.with_mask(cell, bit(val)).admits(g.peer_strikes(cell, val), x),
    ensures
        x.consistent(),
        x.at(cell) == bit(val),
{
    lemma_within();
    lemma_bit();
    let g1 = g.with_mask(cell, bit(val));
    let peers = g.peer_strikes(cell, val);
    assert(g1.at(cell) == bit(val));
    assert(within(x.at(cell), g1.at(cell)));
    assert(x.at(cell) == bit(val));
    assert forall|c: Cell| x.holds(c) implies #[trigger] x.settled(c) by {
        if c == cell {
            assert forall|p: Cell|
                x.holds(p) && p != c && #[trigger] x.sees(c, p) implies disjoint(
                x.at(p),
                x.at(c),
            ) by {
                assert(g.sees(cell, p));
                assert(peers.contains((p, val)));
            }
        } else {
            assert(g1.at(c) == g.at(c));
            if single(g.at(c)) {
                assert(g.settled(c));
                assert(within(x.at(c), g1.at(c)));
                assert(x.at(c) == g.at(c));
                assert forall|p: Cell|
                    x.holds(p) && p != c && #[trigger] x.sees(c, p) implies disjoint(
                    x.at(p),
                    x.at(c),
                ) by {
                    assert(g.sees(c, p));
                    if p == cell {
                        lemma_sees_symmetric(g, c, cell);
                        assert(peers.contains((c, val)));
                        assert(!offers(x.at(c), val));
                    } else {
                        assert(g1.at(p) == g.at(p));
                        assert(within(x.at(p), g1.at(p)));
                        assert(disjoint(g.at(p), g.at(c)));
                    }
                }
            }
        }
    }
}

/// Seeing is mutual.
pub proof fn lemma_sees_symmetric(g: Grid, a: Cell, b: Cell)
    ensures
        g.sees(a, b) == g.sees(b, a),
{
    if g.share_region(a, b) {
        let i = choose|i: int|
            0 <= i < g.regions.len() && #[trigger] g.regions[i].contains(a)
                && g.regions[i].contains(
                b,
            );
        assert(g.regions[i].contains(b) && g.regions[i].contains(a));
    }
    if g.share_region(b, a) {
        let i = choose|i: int|
            0 <= i < g.regions.len() && #[trigger] g.regions[i].contains(b)
                && g.regions[i].contains(
                a,
            );
        assert(g.regions[i].contains(a) && g.regions[i].contains(b));
    }
}

/// A cascade changes the grid exactly when one of its strikes was on offer.
pub proof fn lemma_cascade_changed(g: Grid, strikes: Set<Strike>, out: Grid)
    requires
        g.wf(),
        g.cascades(strikes, true, out),
    ensures
        (out != g) == g.offers_any(strikes),
{
    lemma_within();
    if g.offers_any(strikes) {
        let (c, v) = choose|c: Cell, v: u16| #[trigger]
            strikes.contains((c, v)) && g.holds(c) && offers(g.at(c), v);
        assert(!offers(out.at(c), v));
    } else {
        lemma_admits_self(g, strikes);
        assert(g.refines(out));
        lemma_refines_equal(g, out);
    }
}

/// A cascade can only fail where one of its strikes was on offer.
pub proof fn lemma_cascade_failed(g: Grid, strikes: Set<Strike>, out: Grid)
    requires
        g.wf(),
        g.cascades(strikes, false, out),
    ensures
        g.offers_any(strikes),
{
    if !g.offers_any(strikes) {
        lemma_admits_self(g, strikes);
    }
}

/// Solving a cell with a digit that it offers is the cascade that strikes
/// its other digits and the digit in its peers.
pub proof fn lemma_place_as_strikes(g: Grid, cell: Cell, val: u16, ok: bool, out: Grid)
    requires
        g.wf(),
        g.holds(cell),
        offers(g.at(cell), val),
        g.with_mask(cell, bit(val)).cascades(g.peer_strikes(cell, val), ok, out),
    ensures
        g.cascades(g.place_strikes(cell, val), ok, out),
{
    lemma_within();
    lemma_bit();
    let g1 = g.with_mask(cell, bit(val));
    let peers = g.peer_strikes(cell, val);
    let all = g.place_strikes(cell, val);
    assert(g1.at(cell) == bit(val));
    assert forall|c: Cell| g.holds(c) implies within(#[trigger] g1.at(c), g.at(c)) by {
        if c != cell {
            assert(g1.at(c) == g.at(c));
        }
    }
    assert(g1.refines(g));
    lemma_refines_trans(out, g1, g);
    if ok {
        assert(within(out.at(cell), g1.at(cell)));
        assert(out.at(cell) == bit(val));
        assert forall|c: Cell, v: u16| #[trigger] all.contains((c, v)) && g.holds(c) implies
            !offers(
            out.at(c),
            v,
        ) by {
            if !peers.contains((c, v)) {
                assert(c == cell && v != val);
            }
        }
        assert forall|c: Cell| g.holds(c) && !single(g.at(c)) implies #[trigger] out.settled(c) by {
            if c != cell {
                assert(g1.at(c) == g.at(c));
            } else {
                assert forall|p: Cell|
                    out.holds(p) && p != cell && #[trigger] out.sees(cell, p) implies disjoint(
                    out.at(p),
                    out.at(cell),
                ) by {
                    assert(g.sees(cell, p));
                    assert(peers.contains((p, val)));
                }
            }
        }
    }
    assert forall|x: Grid| #[trigger] g.admits(all, x) implies g1.admits(peers, x) by {
        assert forall|c: Cell| g1.holds(c) implies within(#[trigger] x.at(c), g1.at(c)) by {
            assert(within(x.at(c), g.at(c)));
            if c != cell {
                assert(g1.at(c) == g.at(c));
            } else {
                assert forall|d: u16| d < 16 && offers(x.at(c), d) implies offers(bit(val), d) by {
                    if d != val {
                        assert(all.contains((cell, d)));
                    }
                }
                crate::bits::lemma_within_by_offers(x.at(c), bit(val));
            }
        }
        assert forall|c: Cell, v: u16| #[trigger] peers.contains((c, v)) && g1.holds(c) implies
            !offers(
            x.at(c),
            v,
        ) by {
            assert(all.contains((c, v)));
        }
        assert forall|c: Cell| g1.holds(c) && !single(g1.at(c)) implies #[trigger] x.settled(c) by {
            assert(c != cell);
            assert(g1.at(c) == g.at(c));
        }
    }
}

/// Placing a digit that a peer holds alone cannot succeed.
pub proof fn lemma_place_blocked(g: Grid, cell: Cell, val: u16, p: Cell)
    requires
        g.wf(),
        g.holds(cell),
        g.holds(p),
        val < 16,
        p != cell,
        g.sees(cell, p),
        g.at(p) == bit(val),
    ensures
        forall|x: Grid| !#[trigger] g.with_mask(cell, bit(val)).admits(g.peer_strikes(cell, val), x),
{
    lemma_within();
    lemma_bit();
    let g1 = g.with_mask(cell, bit(val));
    assert(g1.at(p) == g.at(p));
    assert forall|x: Grid| !#[trigger] g1.admits(g.peer_strikes(cell, val), x) by {
        if g1.admits(g.peer_strikes(cell, val), x) {
            assert(g.peer_strikes(cell, val).contains((p, val)));
            assert(within(x.at(p), g1.at(p)));
            assert(x.at(p) != 0);
        }
    }
}

/// Where placing sets off no cascade, it leaves the grid with the cell
/// solved and the digit struck from its peers.
pub proof fn lemma_place_quiet(g: Grid, cell: Cell, val: u16)
    requires
        g.wf(),
        g.holds(cell),
        val < 16,
        g.quiet(cell, val),
    ensures
        g.with_mask(cell, bit(val)).cascades(g.peer_strikes(cell, val), true, g.placed(cell, val)),
{
    lemma_within();
    lemma_bit();
    lemma_clear();
    let g1 = g.with_mask(cell, bit(val));
    let out = g.placed(cell, val);
    let peers = g.peer_strikes(cell, val);
    assert forall|c: Cell| out.holds(c) implies #[trigger] out.at(c) == (if c == cell {
        bit(val)
    } else if g.sees(cell, c) {
        clear(g.at(c), val)
    } else {
        g.at(c)
    }) && g1.at(c) == (if c == cell {
        bit(val)
    } else {
        g.at(c)
    }) by {}
    assert forall|c: Cell| out.holds(c) implies #[trigger] out.at(c) != 0 && within(
        out.at(c),
        g1.at(c),
    ) by {
        assert(g.at(c) != 0);
    }
    assert forall|c: Cell, v: u16| #[trigger] peers.contains((c, v)) && g1.holds(c) implies !offers(
        out.at(c),
        v,
    ) by {}
    assert forall|c: Cell| g1.holds(c) && !single(g1.at(c)) implies #[trigger] out.settled(c) by {
        assert(c != cell);
        assert(g.at(c) == g1.at(c));
        if g.sees(cell, c) && !offers(g.at(c), val) {
            assert(clear(g.at(c), val) == g.at(c));
        }
        assert(!single(out.at(c)));
    }
    assert(g1.admits(peers, out));
    assert forall|x: Grid| #[trigger] g1.admits(peers, x) implies x.refines(out) by {
        assert forall|c: Cell| out.holds(c) implies within(#[trigger] x.at(c), out.at(c)) by {
            assert(within(x.at(c), g1.at(c)));
            if c != cell && g.sees(cell, c) {
                assert(peers.contains((c, val)));
            }
        }
    }
}

/// Striking the only candidate of a cell cannot succeed.
pub proof fn lemma_strike_blocked(g: Grid, cell: Cell, val: u16)
    requires
        g.wf(),
        g.holds(cell),
        val < 16,
        g.at(cell) == bit(val),
    ensures
        g.cascades(set![(cell, val)], false, g),
{
    lemma_within();
    lemma_bit();
    assert forall|x: Grid| #[trigger] g.admits(set![(cell, val)], x) implies false by {
        assert(set![(cell, val)].contains((cell, val)));
        assert(within(x.at(cell), g.at(cell)));
        assert(x.at(cell) != 0);
    }
}

/// Striking a candidate that leaves the cell open is a cascade of one step.
pub proof fn lemma_strike_open(g: Grid, cell: Cell, val: u16)
    requires
        g.wf(),
        g.holds(cell),
        offers(g.at(cell), val),
        g.at(cell) != bit(val),
    ensures
        g.with_mask(cell, clear(g.at(cell), val)).wf(),
        g.with_mask(cell, clear(g.at(cell), val)).refines(g),
        !single(g.at(cell)),
        !single(clear(g.at(cell), val)) ==> g.cascades(
            set![(cell, val)],
            true,
            g.with_mask(cell, clear(g.at(cell), val)),
        ),
{
    lemma_within();
    lemma_bit();
    lemma_clear();
    let g1 = g.with_mask(cell, clear(g.at(cell), val));
    assert forall|c: Cell| g1.holds(c) implies #[trigger] g1.at(c) != 0 && within(
        g1.at(c),
        g.at(c),
    ) by {
        if c != cell {
            assert(g1.at(c) == g.at(c));
        }
    }
    if !single(clear(g.at(cell), val)) {
        assert forall|c: Cell| g.holds(c) && !single(g.at(c)) implies #[trigger] g1.settled(c) by {
            if c != cell {
                assert(g1.at(c) == g.at(c));
            }
        }
        assert forall|x: Grid| #[trigger] g.admits(set![(cell, val)], x) implies x.refines(g1) by {
            assert(set![(cell, val)].contains((cell, val)));
            assert forall|c: Cell| g1.holds(c) implies within(#[trigger] x.at(c), g1.at(c)) by {
                assert(within(x.at(c), g.at(c)));
                if c != cell {
                    assert(g1.at(c) == g.at(c));
                }
            }
        }
    }
}

/// Striking a candidate that leaves one digit `w` hands over to the placement of `w`.
pub proof fn lemma_strike_cascade(g: Grid, cell: Cell, val: u16, w: u16, ok: bool, out: Grid)
    requires
        g.wf(),
        g.holds(cell),
        offers(g.at(cell), val),
        w < 16,
        clear(g.at(cell), val) == bit(w),
        g.with_mask(cell, bit(w)).cascades(
            g.with_mask(cell, bit(w)).peer_strikes(cell, w),
            ok,
            out,
        ),
    ensures
        g.cascades(set![(cell, val)], ok, out),
{
    lemma_within();
    lemma_bit();
    lemma_clear();
    let g1 = g.with_mask(cell, bit(w));
    let peers = g1.peer_strikes(cell, w);
    assert(g.at(cell) != bit(val));
    lemma_strike_open(g, cell, val);
    lemma_refines_trans(out, g1, g);
    assert(g1.at(cell) == bit(w));
    if ok {
        assert(within(out.at(cell), g1.at(cell)));
        assert(out.at(cell) == bit(w));
        assert forall|c: Cell| g.holds(c) && !single(g.at(c)) implies #[trigger] out.settled(c) by {
            if c != cell {
                assert(g1.at(c) == g.at(c));
            } else {
                assert forall|p: Cell|
                    out.holds(p) && p != cell && #[trigger] out.sees(cell, p) implies disjoint(
                    out.at(p),
                    out.at(cell),
                ) by {
                    assert(g1.sees(cell, p));
                    assert(peers.contains((p, w)));
                }
            }
        }
    }
    assert forall|x: Grid|
        #[trigger] g.admits(set![(cell, val)], x) implies ok && x.refines(out) by {
        assert(set![(cell, val)].contains((cell, val)));
        assert(within(x.at(cell), g.at(cell)));
        assert(within(x.at(cell), g1.at(cell)));
        assert(x.at(cell) != 0);
        assert(x.at(cell) == bit(w));
        assert(x.settled(cell));
        assert forall|c: Cell| g1.holds(c) implies within(#[trigger] x.at(c), g1.at(c)) by {
            assert(within(x.at(c), g.at(c)));
            if c != cell {
                assert(g1.at(c) == g.at(c));
            }
        }
        assert forall|c: Cell, v: u16| #[trigger]
            peers.contains((c, v)) && g1.holds(c) implies !offers(x.at(c), v) by {
            assert(x.sees(cell, c));
            assert(disjoint(x.at(c), x.at(cell)));
        }
        assert forall|c: Cell| g1.holds(c) && !single(g1.at(c)) implies #[trigger] x.settled(c) by {
            assert(c != cell);
            assert(g1.at(c) == g.at(c));
        }
        assert(g1.admits(peers, x));
    }
}

proof fn lemma_row_weight_update(s: Seq<u16>, i: int, m: u16)
    requires
        0 <= i < s.len(),
    ensures
        row_weight(s.update(i, m)) + count(s[i]) == row_weight(s) + count(m),
    decreases s.len(),
{
    let t = s.update(i, m);
    if i == s.len() - 1 {
        assert(t.drop_last() =~= s.drop_last());
    } else {
        lemma_row_weight_update(s.drop_last(), i, m);
        assert(t.drop_last() =~= s.drop_last().update(i, m));
    }
}

proof fn lemma_rows_weight_update(ms: Seq<Seq<u16>>, r: int, row: Seq<u16>)
    requires
        0 <= r < ms.len(),
    ensures
        rows_weight(ms.update(r, row)) + row_weight(ms[r]) == rows_weight(ms) + row_weight(row),
    decreases ms.len(),
{
    let t = ms.update(r, row);
    if r == ms.len() - 1 {
        assert(t.drop_last() =~= ms.drop_last());
    } else {
        lemma_rows_weight_update(ms.drop_last(), r, row);
        assert(t.drop_last() =~= ms.drop_last().update(r, row));
    }
}

/// Replacing one mask changes the weight by the difference of the two counts.
pub proof fn lemma_weight_with_mask(g: Grid, c: Cell, m: u16)
    requires
        g.shaped(),
        g.holds(c),
    ensures
        g.with_mask(c, m).weight() + count(g.at(c)) == g.weight() + count(m),
{
    lemma_row_weight_update(g.masks[c.row as int], c.col as int, m);
    lemma_rows_weight_update(
        g.masks,
        c.row as int,
        g.masks[c.row as int].update(c.col as int, m),
    );
}

/// Striking a candidate that a cell offers lowers the weight.
pub proof fn lemma_weight_strike(g: Grid, c: Cell, v: u16)
    requires
        g.shaped(),
        g.holds(c),
        offers(g.at(c), v),
    ensures
        g.with_mask(c, clear(g.at(c), v)).weight() < g.weight(),
{
    lemma_weight_with_mask(g, c, clear(g.at(c), v));
    lemma_count_clear(g.at(c), v);
}

/// Solving a cell that is not empty does not raise the weight.
pub proof fn lemma_weight_place(g: Grid, c: Cell, v: u16)
    requires
        g.wf(),
        g.holds(c),
        v < 16,
    ensures
        g.with_mask(c, bit(v)).weight() <= g.weight(),
{
    lemma_bit();
    lemma_weight_with_mask(g, c, bit(v));
    lemma_count_single(bit(v));
    lemma_count_zero(g.at(c));
}

/// A refinement that differs weighs less.
pub proof fn lemma_weight_strict(x: Grid, g: Grid)
    requires
        x.shaped(),
        g.shaped(),
        x.refines(g),
        x != g,
    ensures
        x.weight() < g.weight(),
{
    lemma_within();
    if forall|c: Cell| g.holds(c) ==> #[trigger] x.at(c) == g.at(c) {
        assert forall|c: Cell| g.holds(c) implies within(#[trigger] g.at(c), x.at(c)) by {
            assert(x.at(c) == g.at(c));
        }
        lemma_refines_equal(x, g);
    }
    let c = choose|c: Cell| g.holds(c) && #[trigger] x.at(c) != g.at(c);
    let mid = g.with_mask(c, x.at(c));
    assert forall|k: Cell| mid.holds(k) implies within(#[trigger] x.at(k), mid.at(k)) by {
        assert(within(x.at(k), g.at(k)));
        if k != c {
            assert(mid.at(k) == g.at(k));
        }
    }
    lemma_weight_refines(x, mid);
    lemma_weight_with_mask(g, c, x.at(c));
    assert(within(x.at(c), g.at(c)));
    crate::bits::lemma_count_strict(x.at(c), g.at(c));
}

proof fn lemma_row_weight_within(s: Seq<u16>, t: Seq<u16>)
    requires
        s.len() == t.len(),
        forall|i: int| 0 <= i < s.len() ==> within(#[trigger] s[i], t[i]),
    ensures
        row_weight(s) <= row_weight(t),
    decreases s.len(),
{
    if s.len() > 0 {
        lemma_row_weight_within(s.drop_last(), t.drop_last());
        lemma_count_within(s.last(), t.last());
    }
}

proof fn lemma_rows_weight_within(x: Seq<Seq<u16>>, y: Seq<Seq<u16>>)
    requires
        x.len() == y.len(),
        forall|r: int| 0 <= r < x.len() ==> (#[trigger] x[r]).len() == y[r].len(),
        forall|r: int, k: int|
            0 <= r < x.len() && 0 <= k < x[r].len() ==> within(#[trigger] x[r][k], y[r][k]),
    ensures
        rows_weight(x) <= rows_weight(y),
    decreases x.len(),
{
    if x.len() > 0 {
        lemma_rows_weight_within(x.drop_last(), y.drop_last());
        lemma_row_weight_within(x.last(), y.last());
    }
}

/// A refinement weighs no more than what it refines.
pub proof fn lemma_weight_refines(x: Grid, g: Grid)
    requires
        x.shaped(),
        g.shaped(),
        x.refines(g),
    ensures
        x.weight() <= g.weight(),
{
    assert forall|r: int, k: int| 0 <= r < x.masks.len() && 0 <= k < x.masks[r].len() implies
        within(
        #[trigger] x.masks[r][k],
        g.masks[r][k],
    ) by {
        let c = Cell { row: r as usize, col: k as usize };
        assert(within(x.at(c), g.at(c)));
    }
    lemma_rows_weight_within(x.masks, g.masks);
}

/// A sequence of placements: from `states[i]` the cell `order[i]` is solved
/// with the digit that `solution` has there, which succeeds or fails as
/// `oks[i]` says and leaves `states[i + 1]`.
pub open spec fn places_all(
    start: Grid,
    solution: Grid,
    order: Seq<Cell>,
    oks: Seq<bool>,
    states: Seq<Grid>,
) -> bool {
    &&& states.len() == order.len() + 1
    &&& oks.len() == order.len()
    &&& states[0] == start
    &&& forall|i: int| 0 <= i < order.len() ==> start.holds(#[trigger] order[i])
    &&& forall|i: int, v: u16|
        0 <= i < order.len() && v < 16 && solution.at(order[i]) == bit(v) ==>
            (#[trigger] states[i]).with_mask(
            order[i],
            bit(v),
        ).cascades(#[trigger] states[i].peer_strikes(order[i], v), oks[i], states[i + 1])
}

proof fn lemma_round_trip_upto(
    start: Grid,
    solution: Grid,
    order: Seq<Cell>,
    oks: Seq<bool>,
    states: Seq<Grid>,
    i: int,
)
    requires
        start.wf(),
        solution.solved(),
        solution.consistent(),
        solution.wf(),
        solution.refines(start),
        places_all(start, solution, order, oks, states),
        0 <= i <= order.len(),
    ensures
        forall|j: int| 0 <= j < i ==> #[trigger] oks[j],
        states[i].wf(),
        solution.refines(states[i]),
        forall|j: int| 0 <= j < i ==> states[i].at(#[trigger] order[j]) == solution.at(order[j]),
    decreases i,
{
    lemma_within();
    lemma_bit();
    if i > 0 {
        let k = i - 1;
        lemma_round_trip_upto(start, solution, order, oks, states, k);
        let g = states[k];
        let c = order[k];
        assert(single(solution.at(c)));
        let v = crate::bits::lemma_nonzero_offers(solution.at(c));
        assert(solution.at(c) == bit(v));
        let g1 = g.with_mask(c, bit(v));
        let peers = g.peer_strikes(c, v);
        assert(g1.cascades(peers, oks[k], states[i]));
        assert(g1.at(c) == bit(v));
        assert forall|x: Cell| g1.holds(x) implies within(#[trigger] solution.at(x), g1.at(x)) by {
            assert(within(solution.at(x), g.at(x)));
            if x != c {
                assert(g1.at(x) == g.at(x));
            }
        }
        assert forall|x: Cell, d: u16| #[trigger] peers.contains((x, d)) && g1.holds(x) implies
            !offers(
            solution.at(x),
            d,
        ) by {
            assert(solution.settled(c));
            assert(solution.sees(c, x));
            assert(disjoint(solution.at(x), solution.at(c)));
        }
        assert(g1.admits(peers, solution));
        assert forall|j: int| 0 <= j < i implies states[i].at(#[trigger] order[j]) == solution.at(
            order[j],
        ) by {
            let x = order[j];
            assert(within(solution.at(x), states[i].at(x)));
            assert(within(states[i].at(x), g1.at(x)));
            if x != c {
                assert(g1.at(x) == g.at(x));
                assert(g.at(x) == solution.at(x));
            }
            assert(single(solution.at(x)));
        }
    }
}

/// Round trip: the digits of a solved grid in which every cell is settled,
/// placed one by one in any order on a grid that still offers them all,
/// never run into a contradiction, and once every cell has had its
/// placement the grid is that solved grid.
pub proof fn lemma_round_trip(
    start: Grid,
    solution: Grid,
    order: Seq<Cell>,
    oks: Seq<bool>,
    states: Seq<Grid>,
)
    requires
        start.wf(),
        solution.wf(),
        solution.solved(),
        solution.consistent(),
        solution.refines(start),
        places_all(start, solution, order, oks, states),
        forall|c: Cell| start.holds(c) ==> order.contains(c),
    ensures
        forall|j: int| 0 <= j < oks.len() ==> #[trigger] oks[j],
        states.last() == solution,
        states.last().solved(),
{
    lemma_within();
    let n = order.len() as int;
    lemma_round_trip_upto(start, solution, order, oks, states, n);
    let end = states[n];
    assert forall|c: Cell|
        solution.holds(c) implies within(#[trigger] end.at(c), solution.at(c)) by {
        assert(order.contains(c));
        let j = choose|j: int| 0 <= j < order.len() && order[j] == c;
        assert(end.at(order[j]) == solution.at(order[j]));
    }
    lemma_refines_equal(end, solution);
}

} // verus!
