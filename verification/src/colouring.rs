//! Simple colouring: the candidates of the cells with two candidates and the
//! ends of the conjugate pairs form a graph; what holds in every way of
//! colouring it is a deduction.

use vstd::prelude::*;
use crate::bits::{count, count_ones, is_set, offers};
use crate::board::{listed_cell, Board, Cell, Contradiction};
use crate::findings::{note, record, views};
use crate::grid::Grid;
use crate::misc::{before, lemma_unit_listed, next_cell, unit_cells, units, Unit};

verus! {

/// A candidate: a digit in a cell.
pub type Candidate = (Cell, u16);

/// What colouring found: candidates to strike and candidates to place.
#[derive(Debug, Clone)]
pub struct ColourMap {
    pub eliminated: Vec<(Cell, u16)>,
    pub placed: Vec<(Cell, u16)>,
}

/// A node of the graph: a candidate, and the nodes that it excludes, each
/// with the mark of a conjugate pair, of which one must hold.
#[derive(Debug, Clone)]
pub struct ColourNode {
    pub cell: Cell,
    pub val: u16,
    pub connects_to: Vec<(usize, bool)>,
}

/// The graph of a board.
#[derive(Debug, Clone)]
pub struct Colouring<'a> {
    pub nodes: Vec<ColourNode>,
    pub board: &'a Board,
}

/// What is known of a node.
#[derive(Debug, Clone, Copy, PartialEq, Eq, Structural)]
pub enum State {
    Open,
    True,
    False,
}

impl Grid {
    /// Both cells are in the unit, and no other cell of it offers `d`.
    pub open spec fn alone_in(self, u: Unit, a: Cell, b: Cell, d: u16) -> bool {
        &&& self.valid_unit(u)
        &&& self.unit_cells(u).contains(a)
        &&& self.unit_cells(u).contains(b)
        &&& forall|t: int|
            0 <= t < self.unit_cells(u).len() && self.unit_cells(u)[t] != a && self.unit_cells(u)[t]
                != b ==> !offers(self.at(#[trigger] self.unit_cells(u)[t]), d)
    }

    /// A conjugate pair: the two cells are the only ones of some unit that
    /// offer the digit `d` of the grid.
    pub open spec fn conjugate(self, a: Cell, b: Cell, d: u16) -> bool {
        &&& a != b
        &&& self.holds(a)
        &&& self.holds(b)
        &&& 1 <= d <= self.size()
        &&& offers(self.at(a), d)
        &&& offers(self.at(b), d)
        &&& exists|u: Unit| self.alone_in(u, a, b, d)
    }

    /// The candidate is a node: one of the two of its cell, or an end of a conjugate pair.
    pub open spec fn is_node(self, x: Candidate) -> bool {
        &&& self.holds(x.0)
        &&& offers(self.at(x.0), x.1)
        &&& (count(self.at(x.0)) == 2 || exists|b: Cell| self.conjugate(x.0, b, x.1))
    }

    /// The two candidates cannot both hold: they are in one cell, or they
    /// are the same digit in cells that see each other.
    pub open spec fn linked(self, x: Candidate, y: Candidate) -> bool {
        x != y && (x.0 == y.0 || (x.1 == y.1 && self.sees(x.0, y.0)))
    }

    /// One of the two candidates must hold: they are the ends of a conjugate pair.
    pub open spec fn paired(self, x: Candidate, y: Candidate) -> bool {
        x.1 == y.1 && self.conjugate(x.0, y.0, x.1)
    }

    /// `t` is a colouring: a set of nodes of which no two are linked and
    /// which has an end of every conjugate pair.
    pub open spec fn colouring(self, t: Set<Candidate>) -> bool {
        &&& forall|x: Candidate| #[trigger] t.contains(x) ==> self.is_node(x)
        &&& forall|x: Candidate, y: Candidate|
            #[trigger] t.contains(x) && #[trigger] t.contains(y) ==> !self.linked(x, y)
        &&& forall|x: Candidate, y: Candidate| #[trigger]
            self.paired(x, y) ==> t.contains(x) || t.contains(y)
    }

    /// The node holds in every colouring.
    pub open spec fn always_true(self, x: Candidate) -> bool {
        self.is_node(x) && forall|t: Set<Candidate>| #[trigger] self.colouring(t) ==> t.contains(x)
    }

    /// In colouring `t` some other cell that the cell of `e` sees holds the digit of `e`.
    pub open spec fn seen_in(self, t: Set<Candidate>, e: Candidate) -> bool {
        exists|y: Candidate|
            #[trigger] t.contains(y) && y.1 == e.1 && y.0 != e.0 && self.sees(e.0, y.0)
    }

    /// The candidate is on offer, and in every colouring some other cell
    /// that its cell sees holds its digit.
    pub open spec fn always_seen(self, e: Candidate) -> bool {
        &&& self.holds(e.0)
        &&& offers(self.at(e.0), e.1)
        &&& forall|t: Set<Candidate>| #[trigger] self.colouring(t) ==> self.seen_in(t, e)
    }

    /// `nodes` lists the nodes of the grid, each once.
    pub open spec fn lists_nodes(self, nodes: Seq<Candidate>) -> bool {
        &&& forall|i: int| 0 <= i < nodes.len() ==> self.is_node(#[trigger] nodes[i])
        &&& forall|x: Candidate| self.is_node(x) ==> nodes.contains(x)
        &&& forall|i: int, j: int| 0 <= i < j < nodes.len() ==> nodes[i] != nodes[j]
    }

    /// `links` are the links of node `i`: each linked node once, marked
    /// where the two are a conjugate pair.
    pub open spec fn lists_links(self, nodes: Seq<Candidate>, i: int, links: Seq<(usize, bool)>) -> bool {
        &&& forall|k: int|
            0 <= k < links.len() ==> (#[trigger] links[k]).0 < nodes.len() && self.linked(
                nodes[i],
                nodes[links[k].0 as int],
            ) && links[k].1 == self.paired(nodes[i], nodes[links[k].0 as int])
        &&& forall|j: int|
            0 <= j < nodes.len() && self.linked(nodes[i], #[trigger] nodes[j]) ==> exists|k: int|
                0 <= k < links.len() && (#[trigger] links[k]).0 == j
    }
}

impl<'a> Colouring<'a> {
    /// The candidates of the nodes.
    pub open spec fn candidates(&self) -> Seq<Candidate> {
        Seq::new(self.nodes.len() as nat, |i: int| (self.nodes[i].cell, self.nodes[i].val))
    }

    /// The graph is that of its board: its nodes and their links.
    pub open spec fn wf(&self) -> bool {
        &&& self.board@.shaped()
        &&& self.board@.lists_nodes(self.candidates())
        &&& forall|i: int|
            0 <= i < self.nodes.len() ==> self.board@.lists_links(
                self.candidates(),
                i,
                (#[trigger] self.nodes[i]).connects_to@,
            )
    }
}

/// The cells of every unit of the board, in the order of `units`.
fn unit_lists(board: &Board) -> (r: (Vec<Unit>, Vec<Vec<Cell>>))
    requires
        board@.shaped(),
    ensures
        r.0@ == board@.all_units(),
        r.1.len() == r.0.len(),
        forall|k: int| 0 <= k < r.0.len() ==> board@.valid_unit(#[trigger] r.0[k]),
        forall|k: int| 0 <= k < r.0.len() ==> (#[trigger] r.1[k])@ == board@.unit_cells(r.0[k]),
{
    let all = units(board);
    let mut lists: Vec<Vec<Cell>> = Vec::new();
    let mut k: usize = 0;
    while k < all.len()
        invariant
            board@.shaped(),
            k <= all.len(),
            lists.len() == k,
            forall|j: int| 0 <= j < all.len() ==> board@.valid_unit(#[trigger] all[j]),
            forall|j: int| 0 <= j < k ==> (#[trigger] lists[j])@ == board@.unit_cells(all[j]),
        decreases all.len() - k,
    {
        lists.push(unit_cells(board, all[k]));
        k += 1;
    }
    (all, lists)
}

/// Whether the two cells are in the unit and no other cell of it offers `d`.
fn alone(board: &Board, Ghost(u): Ghost<Unit>, cells: &Vec<Cell>, a: Cell, b: Cell, d: u16) -> (r:
    bool)
    requires
        board@.shaped(),
        board@.valid_unit(u),
        cells@ == board@.unit_cells(u),
        d < 16,
    ensures
        r == board@.alone_in(u, a, b, d),
{
    if !listed_cell(cells.as_slice(), a) || !listed_cell(cells.as_slice(), b) {
        return false;
    }
    let mut t: usize = 0;
    while t < cells.len()
        invariant
            board@.shaped(),
            board@.valid_unit(u),
            cells@ == board@.unit_cells(u),
            d < 16,
            t <= cells.len(),
            forall|s: int|
                0 <= s < t && cells@[s] != a && cells@[s] != b ==> !offers(
                    board@.at(#[trigger] cells@[s]),
                    d,
                ),
        decreases cells.len() - t,
    {
        let c: Cell = cells[t];
        proof {
            crate::misc::lemma_unit_on_grid(board@, u, t as int);
        }
        if c != a && c != b && is_set(board.mask(c), d) {
            return false;
        }
        t += 1;
    }
    true
}

/// Whether the two cells are a conjugate pair for `d`.
fn conjugate(
    board: &Board,
    all: &Vec<Unit>,
    lists: &Vec<Vec<Cell>>,
    a: Cell,
    b: Cell,
    d: u16,
) -> (r:
    bool)
    requires
        board@.shaped(),
        all@ == board@.all_units(),
        lists.len() == all.len(),
        forall|k: int| 0 <= k < all.len() ==> board@.valid_unit(#[trigger] all[k]),
        forall|k: int| 0 <= k < all.len() ==> (#[trigger] lists[k])@ == board@.unit_cells(all[k]),
        board@.holds(a),
        board@.holds(b),
        d < 16,
    ensures
        r == board@.conjugate(a, b, d),
{
    if a == b || d < 1 || d as usize > board.size() || !is_set(board.mask(a), d) || !is_set(
        board.mask(b),
        d,
    ) {
        return false;
    }
    let mut k: usize = 0;
    while k < all.len()
        invariant
            board@.shaped(),
            all@ == board@.all_units(),
            lists.len() == all.len(),
            forall|j: int| 0 <= j < all.len() ==> board@.valid_unit(#[trigger] all[j]),
            forall|j: int|
                0 <= j < all.len() ==> (#[trigger] lists[j])@ == board@.unit_cells(all[j]),
            d < 16,
            k <= all.len(),
            a != b,
            board@.holds(a),
            board@.holds(b),
            1 <= d <= board@.size(),
            offers(board@.at(a), d),
            offers(board@.at(b), d),
            forall|j: int| 0 <= j < k ==> !board@.alone_in(#[trigger] all[j], a, b, d),
        decreases all.len() - k,
    {
        if alone(board, Ghost(all[k as int]), &lists[k], a, b, d) {
            assert(board@.alone_in(all[k as int], a, b, d));
            return true;
        }
        k += 1;
    }
    proof {
        assert forall|u: Unit| !board@.alone_in(u, a, b, d) by {
            if board@.valid_unit(u) {
                let j = lemma_unit_listed(board@, u);
                assert(all[j] == u);
            }
        }
    }
    false
}

/// Whether the candidate is a node.
fn is_node(board: &Board, all: &Vec<Unit>, lists: &Vec<Vec<Cell>>, cell: Cell, d: u16) -> (r: bool)
    requires
        board@.shaped(),
        all@ == board@.all_units(),
        lists.len() == all.len(),
        forall|k: int| 0 <= k < all.len() ==> board@.valid_unit(#[trigger] all[k]),
        forall|k: int| 0 <= k < all.len() ==> (#[trigger] lists[k])@ == board@.unit_cells(all[k]),
        board@.holds(cell),
        d < 16,
    ensures
        r == board@.is_node((cell, d)),
{
    let m: u16 = board.mask(cell);
    if !is_set(m, d) {
        return false;
    }
    if count_ones(m) == 2 {
        return true;
    }
    let n: usize = board.size();
    let mut cursor = Cell { row: 0, col: 0 };
    while cursor.row < n
        invariant
            board@.shaped(),
            n == board@.size(),
            all@ == board@.all_units(),
            lists.len() == all.len(),
            forall|k: int| 0 <= k < all.len() ==> board@.valid_unit(#[trigger] all[k]),
            forall|k: int|
                0 <= k < all.len() ==> (#[trigger] lists[k])@ == board@.unit_cells(all[k]),
            board@.holds(cell),
            d < 16,
            cursor.row <= n,
            cursor.col < n,
            forall|b: Cell| board@.holds(b) && before(b, cursor) ==> !board@.conjugate(cell, b, d),
        decreases n - cursor.row, n - cursor.col,
    {
        if conjugate(board, all, lists, cell, cursor, d) {
            return true;
        }
        cursor = next_cell(cursor, n);
    }
    proof {
        assert forall|b: Cell| !board@.conjugate(cell, b, d) by {
            if board@.holds(b) {
                assert(before(b, cursor));
            }
        }
    }
    false
}

impl<'a> Colouring<'a> {
    /// The graph of the board.
    pub fn new(board: &'a Board) -> (r: Colouring<'a>)
        requires
            board@.shaped(),
        ensures
            r.wf(),
            r.board == board,
    {
        let (all, lists) = unit_lists(board);
        let n: usize = board.size();
        let mut found: Vec<(Cell, u16)> = Vec::new();
        let mut cursor = Cell { row: 0, col: 0 };
        while cursor.row < n
            invariant
                board@.shaped(),
                n == board@.size(),
                all@ == board@.all_units(),
                lists.len() == all.len(),
                forall|k: int| 0 <= k < all.len() ==> board@.valid_unit(#[trigger] all[k]),
                forall|k: int|
                    0 <= k < all.len() ==> (#[trigger] lists[k])@ == board@.unit_cells(all[k]),
                cursor.row <= n,
                cursor.col < n,
                forall|i: int|
                    0 <= i < found.len() ==> board@.is_node(#[trigger] found[i]) && before(
                        found[i].0,
                        cursor,
                    ),
                forall|x: Candidate|
                    board@.is_node(x) && before(x.0, cursor) ==> found@.contains(x),
                forall|i: int, j: int| 0 <= i < j < found.len() ==> found[i] != found[j],
            decreases n - cursor.row, n - cursor.col,
        {
            let mut d: u16 = 0;
            while d < 16
                invariant
                    board@.shaped(),
                    n == board@.size(),
                    all@ == board@.all_units(),
                    lists.len() == all.len(),
                    forall|k: int| 0 <= k < all.len() ==> board@.valid_unit(#[trigger] all[k]),
                    forall|k: int|
                        0 <= k < all.len() ==> (#[trigger] lists[k])@ == board@.unit_cells(all[k]),
                    cursor.row < n,
                    cursor.col < n,
                    d <= 16,
                    forall|i: int|
                        0 <= i < found.len() ==> board@.is_node(#[trigger] found[i]) && (before(
                            found[i].0,
                            cursor,
                        ) || (found[i].0 == cursor && found[i].1 < d)),
                    forall|x: Candidate|
                        board@.is_node(x) && (before(x.0, cursor) || (x.0 == cursor && x.1 < d))
                            ==> found@.contains(x),
                    forall|i: int, j: int| 0 <= i < j < found.len() ==> found[i] != found[j],
                decreases 16 - d,
            {
                if is_node(board, &all, &lists, cursor, d) {
                    note(&mut found, (cursor, d));
                }
                d += 1;
            }
            cursor = next_cell(cursor, n);
        }
        proof {
            assert forall|x: Candidate| board@.is_node(x) implies found@.contains(x) by {
                assert(before(x.0, cursor));
            }
        }
        let mut nodes: Vec<ColourNode> = Vec::new();
        let mut i: usize = 0;
        while i < found.len()
            invariant
                i <= found.len(),
                nodes.len() == i,
                forall|q: int|
                    0 <= q < i ==> ((#[trigger] nodes[q]).cell, nodes[q].val) == found[q],
            decreases found.len() - i,
        {
            let (cell, val) = found[i];
            nodes.push(ColourNode { cell, val, connects_to: Vec::new() });
            i += 1;
        }
        let mut graph = Colouring { nodes, board };
        proof {
            assert(graph.candidates() =~= found@);
        }
        graph.connect();
        graph
    }

    /// Links the nodes: each to the nodes that it excludes, with the mark
    /// of a conjugate pair where the two are one.
    pub fn connect(&mut self)
        requires
            old(self).board@.shaped(),
            old(self).board@.lists_nodes(old(self).candidates()),
        ensures
            final(self).wf(),
            final(self).board == old(self).board,
            final(self).candidates() == old(self).candidates(),
    {
        let board = self.board;
        let (all, lists) = unit_lists(board);
        let ghost found = self.candidates();
        let count: usize = self.nodes.len();
        let mut nodes: Vec<ColourNode> = Vec::new();
        let mut i: usize = 0;
        while i < count
            invariant
                board@.shaped(),
                all@ == board@.all_units(),
                lists.len() == all.len(),
                forall|k: int| 0 <= k < all.len() ==> board@.valid_unit(#[trigger] all[k]),
                forall|k: int|
                    0 <= k < all.len() ==> (#[trigger] lists[k])@ == board@.unit_cells(all[k]),
                board@.lists_nodes(found),
                self.board == board,
                count == self.nodes.len(),
                found == self.candidates(),
                i <= count,
                nodes.len() == i,
                forall|q: int|
                    0 <= q < i ==>
                        ((#[trigger] nodes[q]).cell, nodes[q].val) == found[q]
                            && board@.lists_links(
                        found,
                        q,
                        nodes[q].connects_to@,
                    ),
            decreases count - i,
        {
            let cell: Cell = self.nodes[i].cell;
            let val: u16 = self.nodes[i].val;
            assert((cell, val) == found[i as int]);
            let mut links: Vec<(usize, bool)> = Vec::new();
            let mut j: usize = 0;
            while j < count
                invariant
                    board@.shaped(),
                    all@ == board@.all_units(),
                    lists.len() == all.len(),
                    forall|k: int| 0 <= k < all.len() ==> board@.valid_unit(#[trigger] all[k]),
                    forall|k: int|
                        0 <= k < all.len() ==> (#[trigger] lists[k])@ == board@.unit_cells(all[k]),
                    board@.lists_nodes(found),
                    self.board == board,
                    count == self.nodes.len(),
                    found == self.candidates(),
                    i < count,
                    (cell, val) == found[i as int],
                    j <= count,
                    forall|k: int|
                        0 <= k < links.len() ==> (#[trigger] links[k]).0 < j && board@.linked(
                            found[i as int],
                            found[links[k].0 as int],
                        ) && links[k].1 == board@.paired(found[i as int], found[links[k].0 as int]),
                    forall|q: int|
                        0 <= q < j && board@.linked(found[i as int], #[trigger] found[q]) ==>
                            exists|
                            k: int,
                        |
                            0 <= k < links.len() && (#[trigger] links[k]).0 == q,
                decreases count - j,
            {
                let other: Cell = self.nodes[j].cell;
                let d: u16 = self.nodes[j].val;
                assert((other, d) == found[j as int]);
                proof {
                    assert(board@.is_node(found[i as int]));
                    assert(board@.is_node(found[j as int]));
                }
                if j != i && (other == cell || (d == val && cell.can_see(board, &other))) {
                    let strong = d == val && conjugate(board, &all, &lists, cell, other, val);
                    let ghost prev = links@;
                    links.push((j, strong));
                    proof {
                        assert(found[i as int] != found[j as int]);
                        assert forall|q: int|
                            0 <= q < j + 1 && board@.linked(
                                found[i as int],
                                #[trigger] found[q],
                            ) implies exists|k: int|
                            0 <= k < links.len() && (#[trigger] links[k]).0 == q by {
                            if q < j {
                                let k = choose|k: int| 0 <= k < prev.len()
                                    && (#[trigger] prev[k]).0 == q;
                                assert(links[k].0 == q);
                            } else {
                                assert(links[prev.len() as int].0 == q);
                            }
                        }
                    }
                }
                j += 1;
            }
            let ghost before_push = nodes@;
            nodes.push(ColourNode { cell, val, connects_to: links });
            proof {
                assert forall|q: int| 0 <= q < i + 1 implies
                    ((#[trigger] nodes[q]).cell, nodes[q].val)
                    == found[q] && board@.lists_links(found, q, nodes[q].connects_to@) by {
                    if q < i {
                        assert(nodes[q] == before_push[q]);
                    }
                }
            }
            i += 1;
        }
        self.nodes = nodes;
        proof {
            assert(self.candidates() =~= found);
        }
    }
}

/// The state that says `want`.
pub open spec fn state_of(want: bool) -> State {
    if want {
        State::True
    } else {
        State::False
    }
}

/// How many nodes are open.
pub open spec fn open_count(s: Seq<State>) -> nat
    decreases s.len(),
{
    if s.len() == 0 {
        0
    } else {
        open_count(s.drop_last()) + if s.last() == State::Open {
            1nat
        } else {
            0nat
        }
    }
}

/// What is known stays known.
pub open spec fn keeps(before: Seq<State>, after: Seq<State>) -> bool {
    &&& before.len() == after.len()
    &&& forall|i: int| 0 <= i < before.len() && before[i] != State::Open ==>
        #[trigger] after[i] == before[i]
}

/// The assignment says of every node what is known of it.
pub open spec fn agrees(a: Seq<bool>, s: Seq<State>) -> bool {
    &&& a.len() == s.len()
    &&& forall|i: int| 0 <= i < s.len() && #[trigger] s[i] != State::Open ==> s[i] == state_of(a[i])
}

impl Grid {
    /// The assignment gives every node a value, to no two linked nodes
    /// `true`, and to one of every conjugate pair.
    pub open spec fn assignment_ok(self, nodes: Seq<Candidate>, a: Seq<bool>) -> bool {
        &&& a.len() == nodes.len()
        &&& forall|i: int, j: int|
            0 <= i < nodes.len() && 0 <= j < nodes.len()
                && #[trigger] self.linked(nodes[i], nodes[j])
                ==> !(a[i] && a[j])
        &&& forall|i: int, j: int|
            0 <= i < nodes.len() && 0 <= j < nodes.len()
                && #[trigger] self.paired(nodes[i], nodes[j])
                ==> a[i] || a[j]
    }

    /// What is known breaks no rule: no two linked nodes are `True`, and of
    /// no conjugate pair are both ends `False`.
    pub open spec fn safe(self, nodes: Seq<Candidate>, s: Seq<State>) -> bool {
        &&& s.len() == nodes.len()
        &&& forall|i: int, j: int|
            0 <= i < nodes.len() && 0 <= j < nodes.len()
                && #[trigger] self.linked(nodes[i], nodes[j])
                ==> !(s[i] == State::True && s[j] == State::True)
        &&& forall|i: int, j: int|
            0 <= i < nodes.len() && 0 <= j < nodes.len()
                && #[trigger] self.paired(nodes[i], nodes[j])
                ==> !(s[i] == State::False && s[j] == State::False)
    }
}

proof fn lemma_open_count_set(s: Seq<State>, i: int, v: State)
    requires
        0 <= i < s.len(),
        s[i] == State::Open,
        v != State::Open,
    ensures
        open_count(s.update(i, v)) + 1 == open_count(s),
    decreases s.len(),
{
    let t = s.update(i, v);
    if i == s.len() - 1 {
        assert(t.drop_last() =~= s.drop_last());
    } else {
        lemma_open_count_set(s.drop_last(), i, v);
        assert(t.drop_last() =~= s.drop_last().update(i, v));
    }
}

proof fn lemma_open_count_keeps(a: Seq<State>, b: Seq<State>)
    requires
        keeps(a, b),
    ensures
        open_count(b) <= open_count(a),
    decreases a.len(),
{
    if a.len() > 0 {
        assert(keeps(a.drop_last(), b.drop_last())) by {
            assert forall|i: int|
                0 <= i < a.drop_last().len() && a.drop_last()[i] != State::Open implies
                    #[trigger] b.drop_last()[i]
                == a.drop_last()[i] by {
                assert(b[i] == a[i]);
            }
        }
        lemma_open_count_keeps(a.drop_last(), b.drop_last());
        if a.last() != State::Open {
            assert(b[a.len() - 1] == a[a.len() - 1]);
        }
    }
}

proof fn lemma_open_count_zero(s: Seq<State>)
    requires
        forall|i: int| 0 <= i < s.len() ==> s[i] != State::Open,
    ensures
        open_count(s) == 0,
    decreases s.len(),
{
    if s.len() > 0 {
        lemma_open_count_zero(s.drop_last());
    }
}

/// Links and pairs are mutual, and a pair is linked.
pub proof fn lemma_links(g: Grid, x: Candidate, y: Candidate)
    ensures
        g.linked(x, y) == g.linked(y, x),
        g.paired(x, y) == g.paired(y, x),
        g.paired(x, y) ==> g.linked(x, y),
{
    crate::grid::lemma_sees_symmetric(g, x.0, y.0);
    if g.paired(x, y) {
        let u = choose|u: Unit| g.alone_in(u, x.0, y.0, x.1);
        assert(g.alone_in(u, y.0, x.0, x.1));
        lemma_unit_sees(g, u, x.0, y.0);
    }
    if g.paired(y, x) {
        let u = choose|u: Unit| g.alone_in(u, y.0, x.0, x.1);
        assert(g.alone_in(u, x.0, y.0, x.1));
    }
}

/// Two cells of one unit see each other.
pub proof fn lemma_unit_sees(g: Grid, u: Unit, a: Cell, b: Cell)
    requires
        g.valid_unit(u),
        g.unit_cells(u).contains(a),
        g.unit_cells(u).contains(b),
    ensures
        g.sees(a, b),
{
    match u {
        Unit::Reg(i) => {
            assert(g.regions[i as int].contains(a) && g.regions[i as int].contains(b));
        },
        _ => {},
    }
}

fn copy_states(states: &Vec<State>) -> (r: Vec<State>)
    ensures
        r@ == states@,
{
    let mut out: Vec<State> = Vec::new();
    let mut i: usize = 0;
    while i < states.len()
        invariant
            i <= states.len(),
            out@ == states@.take(i as int),
        decreases states.len() - i,
    {
        out.push(states[i]);
        assert(out@ =~= states@.take(i + 1));
        i += 1;
    }
    assert(out@ =~= states@);
    out
}

impl<'a> Colouring<'a> {
    /// Makes `node` hold or not, as `want` says, and with it all that
    /// follows: the nodes linked to one that holds do not hold, and the
    /// partner of a pair's end that does not hold holds. Says `false` where
    /// that is against what is known.
    pub fn colour(&self, states: &mut Vec<State>, node: usize, want: bool) -> (ok: bool)
        requires
            self.wf(),
            self.board@.safe(self.candidates(), old(states)@),
            node < self.nodes.len(),
        ensures
            final(states)@.len() == old(states)@.len(),
            ok ==> self.board@.safe(self.candidates(), final(states)@),
            ok ==> keeps(old(states)@, final(states)@),
            ok ==> final(states)@[node as int] == state_of(want),
            forall|a: Seq<bool>| #[trigger]
                self.board@.assignment_ok(self.candidates(), a) && agrees(a, old(states)@)
                    && a[node as int]
                    == want ==> ok && agrees(a, final(states)@),
        decreases open_count(old(states)@),
    {
        let ghost g = self.board@;
        let ghost nodes = self.candidates();
        let cur: State = states[node];
        match cur {
            State::True => {
                return want;
            },
            State::False => {
                return !want;
            },
            State::Open => {},
        }
        let count: usize = self.nodes[node].connects_to.len();
        let ghost links = self.nodes[node as int].connects_to@;
        assert(g.lists_links(nodes, node as int, links));
        let mut k: usize = 0;
        while k < count
            invariant
                self.wf(),
                g == self.board@,
                nodes == self.candidates(),
                node < self.nodes.len(),
                links == self.nodes[node as int].connects_to@,
                count == links.len(),
                g.lists_links(nodes, node as int, links),
                states@ == old(states)@,
                states@.len() == nodes.len(),
                k <= count,
                forall|q: int|
                    0 <= q < k ==>
                        (want ==> states@[(#[trigger] links[q]).0 as int] != State::True) && (
                    !want && links[q].1 ==> states@[links[q].0 as int] != State::False),
            decreases count - k,
        {
            let (j, strong) = self.nodes[node].connects_to[k];
            assert((j, strong) == links[k as int]);
            let sj: State = states[j];
            let clash = match sj {
                State::True => want,
                State::False => !want && strong,
                State::Open => false,
            };
            if clash {
                return false;
            }
            k += 1;
        }
        let ghost before = states@;
        states[node] = if want {
            State::True
        } else {
            State::False
        };
        proof {
            assert(states@ =~= before.update(node as int, state_of(want)));
            lemma_open_count_set(before, node as int, state_of(want));
            assert forall|i: int, j: int|
                0 <= i < nodes.len() && 0 <= j < nodes.len() && #[trigger] g.linked(
                    nodes[i],
                    nodes[j],
                ) implies !(states@[i] == State::True && states@[j] == State::True) by {
                lemma_links(g, nodes[i], nodes[j]);
                if i == node as int && j != node as int {
                    let q = choose|q: int| 0 <= q < links.len() && (#[trigger] links[q]).0 == j;
                } else if j == node as int && i != node as int {
                    let q = choose|q: int| 0 <= q < links.len() && (#[trigger] links[q]).0 == i;
                }
            }
            assert forall|i: int, j: int|
                0 <= i < nodes.len() && 0 <= j < nodes.len() && #[trigger] g.paired(
                    nodes[i],
                    nodes[j],
                ) implies !(states@[i] == State::False && states@[j] == State::False) by {
                lemma_links(g, nodes[i], nodes[j]);
                if i == node as int && j != node as int {
                    let q = choose|q: int| 0 <= q < links.len() && (#[trigger] links[q]).0 == j;
                } else if j == node as int && i != node as int {
                    let q = choose|q: int| 0 <= q < links.len() && (#[trigger] links[q]).0 == i;
                    assert(g.paired(nodes[node as int], nodes[i]));
                }
            }
        }
        let ghost set = states@;
        let mut k: usize = 0;
        while k < count
            invariant
                self.wf(),
                g == self.board@,
                nodes == self.candidates(),
                node < self.nodes.len(),
                links == self.nodes[node as int].connects_to@,
                count == links.len(),
                g.lists_links(nodes, node as int, links),
                g.safe(nodes, states@),
                keeps(set, states@),
                keeps(old(states)@, set),
                set[node as int] == state_of(want),
                open_count(set) < open_count(old(states)@),
                k <= count,
                forall|a: Seq<bool>| #[trigger]
                    g.assignment_ok(nodes, a) && agrees(a, old(states)@) && a[node as int] == want
                        ==> agrees(a, states@),
            decreases count - k,
        {
            let (j, strong) = self.nodes[node].connects_to[k];
            assert((j, strong) == links[k as int]);
            let ghost entry = states@;
            proof {
                lemma_open_count_keeps(set, entry);
            }
            if want {
                if !self.colour(states, j, false) {
                    return false;
                }
            } else if strong {
                if !self.colour(states, j, true) {
                    return false;
                }
            }
            k += 1;
        }
        true
    }

    /// Adds to `out` every assignment that keeps the rules and agrees with
    /// what is known.
    pub fn get_possible_colourings(&self, states: &Vec<State>, out: &mut Vec<Vec<bool>>)
        requires
            self.wf(),
            self.board@.safe(self.candidates(), states@),
        ensures
            forall|a: Seq<bool>|
                #[trigger] views(old(out)@).contains(a) ==> views(final(out)@).contains(a),
            forall|a: Seq<bool>| #[trigger]
                views(final(out)@).contains(a) ==> views(old(out)@).contains(a) || (
                self.board@.assignment_ok(self.candidates(), a) && agrees(a, states@)),
            forall|a: Seq<bool>| #[trigger]
                self.board@.assignment_ok(self.candidates(), a) && agrees(a, states@) ==> views(
                    final(out)@,
                ).contains(a),
        decreases open_count(states@),
    {
        let ghost g = self.board@;
        let ghost nodes = self.candidates();
        let n: usize = states.len();
        let mut first: usize = 0;
        while first < n && !matches!(states[first], State::Open)
            invariant
                n == states.len(),
                first <= n,
                forall|q: int| 0 <= q < first ==> states@[q] != State::Open,
            decreases n - first,
        {
            first += 1;
        }
        if first == n {
            let mut total: Vec<bool> = Vec::new();
            let mut i: usize = 0;
            while i < n
                invariant
                    n == states.len(),
                    i <= n,
                    total.len() == i,
                    forall|q: int|
                        0 <= q < i ==> #[trigger] total[q] == (states@[q] == State::True),
                decreases n - i,
            {
                total.push(matches!(states[i], State::True));
                i += 1;
            }
            proof {
                assert(agrees(total@, states@));
                assert(g.assignment_ok(nodes, total@));
                assert forall|a: Seq<bool>| #[trigger]
                    g.assignment_ok(nodes, a) && agrees(a, states@) implies a == total@ by {
                    assert forall|q: int| 0 <= q < n implies a[q] == total@[q] by {
                        assert(states@[q] != State::Open);
                    }
                    assert(a =~= total@);
                }
            }
            record(out, total);
            return ;
        }
        let mut holds = copy_states(states);
        let ghost had = views(out@);
        if self.colour(&mut holds, first, true) {
            proof {
                lemma_open_count_keeps(states@, holds@);
                lemma_open_count_strict(states@, holds@, first as int);
            }
            self.get_possible_colourings(&holds, out);
        }
        let ghost mid = views(out@);
        let mut fails = copy_states(states);
        if self.colour(&mut fails, first, false) {
            proof {
                lemma_open_count_keeps(states@, fails@);
                lemma_open_count_strict(states@, fails@, first as int);
            }
            self.get_possible_colourings(&fails, out);
        }
        proof {
            assert forall|a: Seq<bool>| #[trigger]
                g.assignment_ok(nodes, a) && agrees(a, states@) implies views(out@).contains(a) by {
                if a[first as int] {
                    assert(mid.contains(a));
                }
            }
            assert forall|a: Seq<bool>| #[trigger] views(out@).contains(a) implies
                had.contains(a) || (
            g.assignment_ok(nodes, a) && agrees(a, states@)) by {
                if !had.contains(a) {
                    if mid.contains(a) {
                        assert(agrees(a, holds@));
                        lemma_agrees_kept(a, states@, holds@);
                    } else {
                        assert(agrees(a, fails@));
                        lemma_agrees_kept(a, states@, fails@);
                    }
                }
            }
        }
    }
}

proof fn lemma_agrees_kept(a: Seq<bool>, before: Seq<State>, after: Seq<State>)
    requires
        keeps(before, after),
        agrees(a, after),
    ensures
        agrees(a, before),
{
    assert forall|i: int| 0 <= i < before.len() && #[trigger] before[i] != State::Open implies
        before[i]
        == state_of(a[i]) by {
        assert(after[i] == before[i]);
    }
}

proof fn lemma_open_count_strict(a: Seq<State>, b: Seq<State>, i: int)
    requires
        keeps(a, b),
        0 <= i < a.len(),
        a[i] == State::Open,
        b[i] != State::Open,
    ensures
        open_count(b) < open_count(a),
{
    let mid = a.update(i, b[i]);
    lemma_open_count_set(a, i, b[i]);
    assert(keeps(mid, b)) by {
        assert forall|q: int|
            0 <= q < mid.len() && mid[q] != State::Open implies #[trigger] b[q] == mid[q] by {
            if q != i {
                assert(b[q] == a[q]);
            }
        }
    }
    lemma_open_count_keeps(mid, b);
}

/// The nodes that hold in an assignment.
pub open spec fn held(nodes: Seq<Candidate>, a: Seq<bool>) -> Set<Candidate> {
    Set::new(|x: Candidate| exists|i: int| 0 <= i < nodes.len() && #[trigger] nodes[i] == x && a[i])
}

/// The assignment in which the nodes of `t` hold.
pub open spec fn chosen(nodes: Seq<Candidate>, t: Set<Candidate>) -> Seq<bool> {
    Seq::new(nodes.len(), |i: int| t.contains(nodes[i]))
}

/// The ends of a conjugate pair are nodes.
pub proof fn lemma_pair_nodes(g: Grid, x: Candidate, y: Candidate)
    requires
        g.paired(x, y),
    ensures
        g.is_node(x),
        g.is_node(y),
{
    lemma_links(g, x, y);
    assert(g.conjugate(x.0, y.0, x.1));
    assert(g.conjugate(y.0, x.0, y.1));
}

/// The nodes that hold in an assignment that keeps the rules are a colouring.
pub proof fn lemma_held_colouring(g: Grid, nodes: Seq<Candidate>, a: Seq<bool>)
    requires
        g.lists_nodes(nodes),
        g.assignment_ok(nodes, a),
    ensures
        g.colouring(held(nodes, a)),
{
    let t = held(nodes, a);
    assert forall|x: Candidate, y: Candidate| #[trigger] t.contains(x)
        && #[trigger] t.contains(y) implies
        !g.linked(
        x,
        y,
    ) by {
        let i = choose|i: int| 0 <= i < nodes.len() && #[trigger] nodes[i] == x && a[i];
        let j = choose|j: int| 0 <= j < nodes.len() && #[trigger] nodes[j] == y && a[j];
        if g.linked(x, y) {
            assert(g.linked(nodes[i], nodes[j]));
        }
    }
    assert forall|x: Candidate, y: Candidate| #[trigger] g.paired(x, y) implies
        t.contains(x) || t.contains(
        y,
    ) by {
        lemma_pair_nodes(g, x, y);
        assert(nodes.contains(x) && nodes.contains(y));
        let i = choose|i: int| 0 <= i < nodes.len() && nodes[i] == x;
        let j = choose|j: int| 0 <= j < nodes.len() && nodes[j] == y;
        assert(g.paired(nodes[i], nodes[j]));
        assert(a[i] || a[j]);
    }
}

/// A colouring is the set of nodes that hold in an assignment that keeps the rules.
pub proof fn lemma_chosen_ok(g: Grid, nodes: Seq<Candidate>, t: Set<Candidate>)
    requires
        g.lists_nodes(nodes),
        g.colouring(t),
    ensures
        g.assignment_ok(nodes, chosen(nodes, t)),
        held(nodes, chosen(nodes, t)) == t,
{
    let a = chosen(nodes, t);
    assert forall|x: Candidate| held(nodes, a).contains(x) == t.contains(x) by {
        if t.contains(x) {
            assert(nodes.contains(x));
            let i = choose|i: int| 0 <= i < nodes.len() && nodes[i] == x;
            assert(nodes[i] == x && a[i]);
        }
    }
    assert(held(nodes, a) =~= t);
}

/// What an assignment says of a node is whether the node is among those that hold.
pub proof fn lemma_held_index(g: Grid, nodes: Seq<Candidate>, a: Seq<bool>, i: int)
    requires
        g.lists_nodes(nodes),
        a.len() == nodes.len(),
        0 <= i < nodes.len(),
    ensures
        held(nodes, a).contains(nodes[i]) == a[i],
{
    if held(nodes, a).contains(nodes[i]) {
        let j = choose|j: int| 0 <= j < nodes.len() && #[trigger] nodes[j] == nodes[i] && a[j];
        if j < i {
            assert(nodes[j] != nodes[i]);
        } else if i < j {
            assert(nodes[i] != nodes[j]);
        }
    }
}

impl<'a> Colouring<'a> {
    /// The assignment lets a node hold with the digit `d` in another cell that `cell` sees.
    pub open spec fn sees_held(&self, a: Seq<bool>, cell: Cell, d: u16) -> bool {
        exists|i: int|
            0 <= i < self.nodes.len() && #[trigger] a[i] && self.candidates()[i].1 == d
                && self.candidates()[i].0 != cell && self.board@.sees(cell, self.candidates()[i].0)
    }

    /// The candidates of the nodes that hold.
    pub fn placed_digits(&self, a: &Vec<bool>) -> (r: Vec<(Cell, u16)>)
        requires
            a.len() == self.nodes.len(),
        ensures
            forall|x: Candidate| r@.contains(x) <==> held(self.candidates(), a@).contains(x),
    {
        let mut out: Vec<(Cell, u16)> = Vec::new();
        let mut i: usize = 0;
        while i < a.len()
            invariant
                a.len() == self.nodes.len(),
                i <= a.len(),
                forall|x: Candidate|
                    out@.contains(x) <==> exists|j: int|
                        0 <= j < i && #[trigger] self.candidates()[j] == x && a@[j],
            decreases a.len() - i,
        {
            let ghost prev = out@;
            let ghost nodes = self.candidates();
            if a[i] {
                note(&mut out, (self.nodes[i].cell, self.nodes[i].val));
            }
            proof {
                assert(nodes[i as int] == (self.nodes[i as int].cell, self.nodes[i as int].val));
                assert forall|x: Candidate|
                    out@.contains(x) <==> exists|j: int|
                        0 <= j < i + 1 && #[trigger] nodes[j] == x && a@[j] by {
                    if out@.contains(x) {
                        if prev.contains(x) {
                            let j = choose|j: int| 0 <= j < i && #[trigger] nodes[j] == x && a@[j];
                            assert(0 <= j < i + 1 && nodes[j] == x && a@[j]);
                        } else {
                            assert(nodes[i as int] == x && a@[i as int]);
                        }
                    }
                    if exists|j: int| 0 <= j < i + 1 && #[trigger] nodes[j] == x && a@[j] {
                        let j = choose|j: int| 0 <= j < i + 1 && #[trigger] nodes[j] == x && a@[j];
                        if j < i {
                            assert(prev.contains(x));
                        }
                    }
                }
            }
            i += 1;
        }
        out
    }

    /// Whether the assignment lets a node hold with the digit `d` in
    /// another cell that `cell` sees.
    fn is_seen(&self, a: &Vec<bool>, cell: Cell, d: u16) -> (r: bool)
        requires
            a.len() == self.nodes.len(),
        ensures
            r == self.sees_held(a@, cell, d),
    {
        let mut i: usize = 0;
        while i < a.len()
            invariant
                a.len() == self.nodes.len(),
                i <= a.len(),
                forall|j: int|
                    0 <= j < i ==> !(#[trigger] a@[j] && self.candidates()[j].1 == d
                        && self.candidates()[j].0 != cell && self.board@.sees(
                        cell,
                        self.candidates()[j].0,
                    )),
            decreases a.len() - i,
        {
            if a[i] && self.nodes[i].val == d && self.nodes[i].cell != cell && cell.can_see(
                self.board,
                &self.nodes[i].cell,
            ) {
                assert(a@[i as int] && self.candidates()[i as int].1 == d);
                return true;
            }
            i += 1;
        }
        false
    }
}

/// What colouring finds on the board, or a contradiction where the graph
/// cannot be coloured.
pub fn from_board(board: &Board) -> (res: Result<ColourMap, Contradiction>)
    requires
        board@.shaped(),
    ensures
        (res is Err) == (forall|t: Set<Candidate>| !board@.colouring(t)),
        res matches Ok(m) ==>
            (forall|x: Candidate| m.placed@.contains(x) <==> board@.always_true(x))
            && (forall|e: Candidate| m.eliminated@.contains(e) <==> board@.always_seen(e)),
{
    let graph = Colouring::new(board);
    let ghost g = board@;
    let ghost nodes = graph.candidates();
    let n: usize = graph.nodes.len();
    let mut states: Vec<State> = Vec::new();
    let mut i: usize = 0;
    while i < n
        invariant
            i <= n,
            states.len() == i,
            forall|q: int| 0 <= q < i ==> states@[q] == State::Open,
        decreases n - i,
    {
        states.push(State::Open);
        i += 1;
    }
    let mut possible: Vec<Vec<bool>> = Vec::new();
    graph.get_possible_colourings(&states, &mut possible);
    proof {
        assert forall|a: Seq<bool>| #[trigger] views(possible@).contains(a) == g.assignment_ok(nodes, a) by {
            if g.assignment_ok(nodes, a) {
                assert(agrees(a, states@));
            }
        }
        assert forall|k: int| 0 <= k < possible.len() implies g.assignment_ok(
            nodes,
            #[trigger] possible[k]@,
        ) by {
            assert(views(possible@)[k] == possible[k]@);
            assert(views(possible@).contains(possible[k]@));
        }
    }
    if possible.len() == 0 {
        proof {
            assert forall|t: Set<Candidate>| !g.colouring(t) by {
                if g.colouring(t) {
                    lemma_chosen_ok(g, nodes, t);
                    assert(views(possible@).contains(chosen(nodes, t)));
                }
            }
        }
        return Err(Contradiction);
    }
    proof {
        lemma_held_colouring(g, nodes, possible[0]@);
    }
    let mut placed: Vec<(Cell, u16)> = Vec::new();
    let mut i: usize = 0;
    while i < n
        invariant
            i <= n,
            n == graph.nodes.len(),
            nodes == graph.candidates(),
            forall|k: int| 0 <= k < possible.len() ==> (#[trigger] possible[k]@).len() == n,
            forall|x: Candidate|
                placed@.contains(x) <==> exists|j: int|
                    0 <= j < i && #[trigger] nodes[j] == x && forall|k: int|
                        0 <= k < possible.len() ==> (#[trigger] possible[k]@)[j],
        decreases n - i,
    {
        let mut k: usize = 0;
        let mut all = true;
        while k < possible.len()
            invariant
                i < n,
                k <= possible.len(),
                forall|q: int| 0 <= q < possible.len() ==> (#[trigger] possible[q]@).len() == n,
                all == forall|q: int| 0 <= q < k ==> (#[trigger] possible[q]@)[i as int],
            decreases possible.len() - k,
        {
            assert(possible[k as int]@.len() == n);
            if !possible[k][i] {
                all = false;
            }
            k += 1;
        }
        let ghost prev = placed@;
        if all {
            note(&mut placed, (graph.nodes[i].cell, graph.nodes[i].val));
        }
        proof {
            assert(nodes[i as int] == (graph.nodes[i as int].cell, graph.nodes[i as int].val));
            assert forall|x: Candidate|
                placed@.contains(x) <==> exists|j: int|
                    0 <= j < i + 1 && #[trigger] nodes[j] == x && forall|k: int|
                        0 <= k < possible.len() ==> (#[trigger] possible[k]@)[j] by {
                if placed@.contains(x) {
                    if prev.contains(x) {
                        let j = choose|j: int|
                            0 <= j < i && #[trigger] nodes[j] == x && forall|k: int|
                                0 <= k < possible.len() ==> (#[trigger] possible[k]@)[j];
                        assert(0 <= j < i + 1 && nodes[j] == x);
                    } else {
                        assert(nodes[i as int] == x);
                    }
                }
                if exists|j: int|
                    0 <= j < i + 1 && #[trigger] nodes[j] == x && forall|k: int|
                        0 <= k < possible.len() ==> (#[trigger] possible[k]@)[j] {
                    let j = choose|j: int|
                        0 <= j < i + 1 && #[trigger] nodes[j] == x && forall|k: int|
                            0 <= k < possible.len() ==> (#[trigger] possible[k]@)[j];
                    if j < i {
                        assert(prev.contains(x));
                    }
                }
            }
        }
        i += 1;
    }
    proof {
        assert forall|x: Candidate| placed@.contains(x) <==> g.always_true(x) by {
            if placed@.contains(x) {
                let j = choose|j: int|
                    0 <= j < n && #[trigger] nodes[j] == x && forall|k: int|
                        0 <= k < possible.len() ==> (#[trigger] possible[k]@)[j];
                assert forall|t: Set<Candidate>|
                    #[trigger] g.colouring(t) implies t.contains(x) by {
                    lemma_chosen_ok(g, nodes, t);
                    let a = chosen(nodes, t);
                    assert(views(possible@).contains(a));
                    let k = choose|k: int| 0 <= k < views(possible@).len()
                        && views(possible@)[k] == a;
                    assert(possible[k]@[j]);
                }
            }
            if g.always_true(x) {
                assert(nodes.contains(x));
                let j = choose|j: int| 0 <= j < nodes.len() && nodes[j] == x;
                assert forall|k: int|
                    0 <= k < possible.len() implies (#[trigger] possible[k]@)[j] by {
                    lemma_held_colouring(g, nodes, possible[k]@);
                    lemma_held_index(g, nodes, possible[k]@, j);
                }
                assert(nodes[j] == x);
            }
        }
    }
    let mut eliminated: Vec<(Cell, u16)> = Vec::new();
    let size: usize = board.size();
    let mut cursor = Cell { row: 0, col: 0 };
    while cursor.row < size
        invariant
            size == g.size(),
            g == board@,
            g.shaped(),
            graph.board == board,
            n == graph.nodes.len(),
            nodes == graph.candidates(),
            cursor.row <= size,
            cursor.col < size,
            forall|k: int| 0 <= k < possible.len() ==> (#[trigger] possible[k]@).len() == n,
            forall|e: Candidate|
                eliminated@.contains(e) <==> g.holds(e.0) && before(e.0, cursor) && offers(
                    g.at(e.0),
                    e.1,
                ) && forall|k: int|
                    0 <= k < possible.len() ==> graph.sees_held(#[trigger] possible[k]@, e.0, e.1),
        decreases size - cursor.row, size - cursor.col,
    {
        let m: u16 = board.mask(cursor);
        let mut d: u16 = 0;
        while d < 16
            invariant
                size == g.size(),
                g == board@,
                g.shaped(),
                graph.board == board,
                n == graph.nodes.len(),
                nodes == graph.candidates(),
                cursor.row < size,
                cursor.col < size,
                m == g.at(cursor),
                d <= 16,
                forall|k: int| 0 <= k < possible.len() ==> (#[trigger] possible[k]@).len() == n,
                forall|e: Candidate|
                    eliminated@.contains(e) <==>
                        g.holds(e.0) && (before(e.0, cursor) || (e.0 == cursor
                        && e.1 < d)) && offers(g.at(e.0), e.1) && forall|k: int|
                        0 <= k < possible.len() ==> graph.sees_held(
                            #[trigger] possible[k]@,
                            e.0,
                            e.1,
                        ),
            decreases 16 - d,
        {
            if is_set(m, d) {
                let mut k: usize = 0;
                let mut all = true;
                while k < possible.len()
                    invariant
                        k <= possible.len(),
                        n == graph.nodes.len(),
                        forall|q: int|
                            0 <= q < possible.len() ==> (#[trigger] possible[q]@).len() == n,
                        all == forall|q: int|
                            0 <= q < k ==> graph.sees_held(#[trigger] possible[q]@, cursor, d),
                    decreases possible.len() - k,
                {
                    assert(possible[k as int]@.len() == n);
                    if !graph.is_seen(&possible[k], cursor, d) {
                        all = false;
                    }
                    k += 1;
                }
                if all {
                    note(&mut eliminated, (cursor, d));
                }
            }
            d += 1;
        }
        proof {
            crate::bits::lemma_bit();
        }
        cursor = next_cell(cursor, size);
    }
    proof {
        assert forall|e: Candidate| eliminated@.contains(e) <==> g.always_seen(e) by {
            if g.holds(e.0) {
                assert(before(e.0, cursor));
            }
            if eliminated@.contains(e) {
                assert forall|t: Set<Candidate>|
                    #[trigger] g.colouring(t) implies g.seen_in(t, e) by {
                    lemma_chosen_ok(g, nodes, t);
                    let a = chosen(nodes, t);
                    assert(views(possible@).contains(a));
                    let k = choose|k: int| 0 <= k < views(possible@).len()
                        && views(possible@)[k] == a;
                    assert(graph.sees_held(possible[k]@, e.0, e.1));
                    let i = choose|i: int|
                        0 <= i < n && #[trigger] a[i] && nodes[i].1 == e.1 && nodes[i].0 != e.0
                            && g.sees(
                            e.0,
                            nodes[i].0,
                        );
                    assert(t.contains(nodes[i]));
                }
            }
            if g.always_seen(e) {
                assert forall|k: int| 0 <= k < possible.len() implies graph.sees_held(
                    #[trigger] possible[k]@,
                    e.0,
                    e.1,
                ) by {
                    let a = possible[k]@;
                    lemma_held_colouring(g, nodes, a);
                    let t = held(nodes, a);
                    assert(g.seen_in(t, e));
                    let y = choose|y: Candidate| #[trigger]
                        t.contains(y) && y.1 == e.1 && y.0 != e.0 && g.sees(e.0, y.0);
                    let i = choose|i: int| 0 <= i < nodes.len() && #[trigger] nodes[i] == y && a[i];
                    assert(a[i] && nodes[i].1 == e.1);
                }
            }
        }
    }
    Ok(ColourMap { eliminated, placed })
}

} // verus!
