//! Fish: a digit whose places in `s` lines are confined to `s` cross-lines
//! can be struck from the rest of those cross-lines. Size 2 is the X-wing,
//! size 3 the swordfish, size 4 the jellyfish.

use vstd::prelude::*;
use crate::bits::{is_set, is_single, offers, single};
use crate::board::{listed, Board, Cell};
use crate::findings::{record, views};
use crate::grid::Grid;
use crate::hiddens::ascending;

verus! {

/// A fish of any size.
#[derive(Debug, Clone)]
pub struct Fish {
    pub clear_rows: bool,
    pub rows: Vec<usize>,
    pub cols: Vec<usize>,
    pub val: u16,
}

/// A fish of size 2.
#[derive(Debug, Clone, Copy)]
pub struct XWing2 {
    pub clear_rows: bool,
    pub rows: [usize; 2],
    pub cols: [usize; 2],
    pub val: u16,
}

/// A fish of size 3.
#[derive(Debug, Clone, Copy)]
pub struct XWing3 {
    pub clear_rows: bool,
    pub rows: [usize; 3],
    pub cols: [usize; 3],
    pub val: u16,
}

/// What a fish holds.
pub struct FishView {
    pub clear_rows: bool,
    pub rows: Seq<usize>,
    pub cols: Seq<usize>,
    pub val: u16,
}

impl View for Fish {
    type V = FishView;

    open spec fn view(&self) -> FishView {
        FishView { clear_rows: self.clear_rows, rows: self.rows@, cols: self.cols@, val: self.val }
    }
}

impl View for XWing2 {
    type V = FishView;

    open spec fn view(&self) -> FishView {
        FishView { clear_rows: self.clear_rows, rows: self.rows@, cols: self.cols@, val: self.val }
    }
}

impl View for XWing3 {
    type V = FishView;

    open spec fn view(&self) -> FishView {
        FishView { clear_rows: self.clear_rows, rows: self.rows@, cols: self.cols@, val: self.val }
    }
}

impl Grid {
    /// Every crossing of the rows and columns is an open cell that offers `val`.
    pub open spec fn fish_corners(self, rows: Seq<usize>, cols: Seq<usize>, val: u16) -> bool {
        forall|i: int, j: int|
            0 <= i < rows.len() && 0 <= j < cols.len() ==> !single(
                #[trigger] self.at(Cell { row: rows[i], col: cols[j] }),
            ) && offers(self.at(Cell { row: rows[i], col: cols[j] }), val)
    }

    /// With `by_cols`: in each of the columns, `val` is offered in the given
    /// rows only. Without: in each of the rows, in the given columns only.
    pub open spec fn fish_confined(
        self,
        by_cols: bool,
        rows: Seq<usize>,
        cols: Seq<usize>,
        val: u16,
    ) -> bool {
        if by_cols {
            forall|r: usize, j: int|
                r < self.size() && 0 <= j < cols.len() && !rows.contains(r) ==> !offers(
                    #[trigger] self.at(Cell { row: r, col: cols[j] }),
                    val,
                )
        } else {
            forall|c: usize, i: int|
                c < self.size() && 0 <= i < rows.len() && !cols.contains(c) ==> !offers(
                    #[trigger] self.at(Cell { row: rows[i], col: c }),
                    val,
                )
        }
    }

    /// `p` is a fish of size `s`: `s` rows and `s` columns, both ascending,
    /// and a digit of the grid that every crossing offers and that is
    /// confined to them; `clear_rows` says that the columns confine it, so
    /// that the rows are to be cleared.
    pub open spec fn is_fish(self, s: int, p: FishView) -> bool {
        &&& p.rows.len() == s
        &&& p.cols.len() == s
        &&& ascending(p.rows, self.size())
        &&& ascending(p.cols, self.size())
        &&& 1 <= p.val <= self.size()
        &&& self.fish_corners(p.rows, p.cols, p.val)
        &&& self.fish_confined(p.clear_rows, p.rows, p.cols, p.val)
    }
}

/// `x` begins with `prefix`.
pub open spec fn starts_with(x: Seq<usize>, prefix: Seq<usize>) -> bool {
    x.take(prefix.len() as int) == prefix
}

fn copy_of(list: &Vec<usize>) -> (r: Vec<usize>)
    ensures
        r@ == list@,
{
    let mut out: Vec<usize> = Vec::new();
    let mut i: usize = 0;
    while i < list.len()
        invariant
            i <= list.len(),
            out@ == list@.take(i as int),
        decreases list.len() - i,
    {
        out.push(list[i]);
        assert(out@ =~= list@.take(i + 1));
        i += 1;
    }
    assert(out@ =~= list@);
    out
}

/// Adds to `out` every ascending choice of `s` numbers below `n` that starts with `chosen`.
fn choose_more(n: usize, s: usize, chosen: &mut Vec<usize>, out: &mut Vec<Vec<usize>>)
    requires
        old(chosen).len() <= s,
        ascending(old(chosen)@, n as int),
    ensures
        final(chosen)@ == old(chosen)@,
        forall|x: Seq<usize>|
            #[trigger] views(old(out)@).contains(x) ==> views(final(out)@).contains(x),
        forall|x: Seq<usize>| #[trigger]
            views(final(out)@).contains(x) ==> views(old(out)@).contains(x) || (x.len() == s
                && ascending(x, n as int)),
        forall|x: Seq<usize>|
            x.len() == s && ascending(x, n as int) && #[trigger] starts_with(x, old(chosen)@) ==>
                views(
                final(out)@,
            ).contains(x),
    decreases s - old(chosen).len(),
{
    let len: usize = chosen.len();
    if len == s {
        let item = copy_of(chosen);
        proof {
            assert forall|x: Seq<usize>|
                x.len() == s && ascending(x, n as int) && #[trigger] starts_with(
                    x,
                    chosen@,
                ) implies x == item@ by {
                assert(x.take(len as int) =~= x);
            }
        }
        record(out, item);
        return ;
    }
    let mut t: usize = if len == 0 {
        0
    } else {
        chosen[len - 1] + 1
    };
    let ghost base = chosen@;
    while t < n
        invariant
            len < s,
            chosen@ == base,
            base == old(chosen)@,
            chosen.len() == len,
            ascending(base, n as int),
            t <= n,
            len > 0 ==> t > base[len - 1],
            forall|x: Seq<usize>|
                #[trigger] views(old(out)@).contains(x) ==> views(out@).contains(x),
            forall|x: Seq<usize>| #[trigger]
                views(out@).contains(x) ==> views(old(out)@).contains(x) || (x.len() == s
                    && ascending(x, n as int)),
            forall|x: Seq<usize>|
                x.len() == s && ascending(x, n as int) && #[trigger] starts_with(x, base)
                    && x[len as int]
                    < t ==> views(out@).contains(x),
        decreases n - t,
    {
        chosen.push(t);
        choose_more(n, s, chosen, out);
        chosen.pop();
        proof {
            assert(chosen@ =~= base);
            assert forall|x: Seq<usize>|
                x.len() == s && ascending(x, n as int) && #[trigger] starts_with(x, base)
                    && x[len as int]
                    == t implies views(out@).contains(x) by {
                assert(x.take(len + 1) =~= base.push(t));
                assert(starts_with(x, base.push(t)));
            }
        }
        t += 1;
    }
}

/// Every ascending choice of `s` numbers below `n`.
pub fn choices(n: usize, s: usize) -> (out: Vec<Vec<usize>>)
    ensures
        forall|x: Seq<usize>| #[trigger]
            views(out@).contains(x) <==> x.len() == s && ascending(x, n as int),
{
    let mut out: Vec<Vec<usize>> = Vec::new();
    let mut chosen: Vec<usize> = Vec::new();
    let ghost none = chosen@;
    choose_more(n, s, &mut chosen, &mut out);
    proof {
        assert forall|x: Seq<usize>| x.len() == s && ascending(x, n as int) implies
            #[trigger] views(
            out@,
        ).contains(x) by {
            assert(x.take(0) =~= none);
            assert(starts_with(x, none));
        }
    }
    out
}

/// Whether every crossing is an open cell that offers `val`.
fn corners_offer(board: &Board, rows: &Vec<usize>, cols: &Vec<usize>, val: u16) -> (r: bool)
    requires
        board@.shaped(),
        ascending(rows@, board@.size()),
        ascending(cols@, board@.size()),
        val < 16,
    ensures
        r == board@.fish_corners(rows@, cols@, val),
{
    let mut i: usize = 0;
    while i < rows.len()
        invariant
            board@.shaped(),
            ascending(rows@, board@.size()),
            ascending(cols@, board@.size()),
            val < 16,
            i <= rows.len(),
            forall|a: int, b: int|
                0 <= a < i && 0 <= b < cols.len() ==> !single(
                    #[trigger] board@.at(Cell { row: rows@[a], col: cols@[b] }),
                ) && offers(board@.at(Cell { row: rows@[a], col: cols@[b] }), val),
        decreases rows.len() - i,
    {
        let mut j: usize = 0;
        while j < cols.len()
            invariant
                board@.shaped(),
                ascending(rows@, board@.size()),
                ascending(cols@, board@.size()),
                val < 16,
                i < rows.len(),
                j <= cols.len(),
                forall|a: int, b: int|
                    0 <= a < i && 0 <= b < cols.len() ==> !single(
                        #[trigger] board@.at(Cell { row: rows@[a], col: cols@[b] }),
                    ) && offers(board@.at(Cell { row: rows@[a], col: cols@[b] }), val),
                forall|b: int|
                    0 <= b < j ==> !single(
                        #[trigger] board@.at(Cell { row: rows@[i as int], col: cols@[b] }),
                    ) && offers(board@.at(Cell { row: rows@[i as int], col: cols@[b] }), val),
            decreases cols.len() - j,
        {
            let m: u16 = board.mask(Cell { row: rows[i], col: cols[j] });
            if is_single(m) || !is_set(m, val) {
                assert(rows@[i as int] == rows[i as int] && cols@[j as int] == cols[j as int]);
                return false;
            }
            j += 1;
        }
        i += 1;
    }
    true
}

/// Whether `val` is confined to the crossings: in each of the columns
/// (`by_cols`) or in each of the rows.
fn confined(board: &Board, by_cols: bool, rows: &Vec<usize>, cols: &Vec<usize>, val: u16) -> (r:
    bool)
    requires
        board@.shaped(),
        ascending(rows@, board@.size()),
        ascending(cols@, board@.size()),
        val < 16,
    ensures
        r == board@.fish_confined(by_cols, rows@, cols@, val),
{
    let n: usize = board.size();
    let mut line: usize = 0;
    while line < n
        invariant
            board@.shaped(),
            n == board@.size(),
            ascending(rows@, board@.size()),
            ascending(cols@, board@.size()),
            val < 16,
            line <= n,
            by_cols ==> forall|r: usize, j: int|
                r < line && 0 <= j < cols.len() && !rows@.contains(r) ==> !offers(
                    #[trigger] board@.at(Cell { row: r, col: cols@[j] }),
                    val,
                ),
            !by_cols ==> forall|c: usize, i: int|
                c < line && 0 <= i < rows.len() && !cols@.contains(c) ==> !offers(
                    #[trigger] board@.at(Cell { row: rows@[i], col: c }),
                    val,
                ),
        decreases n - line,
    {
        let inside = if by_cols {
            listed(rows.as_slice(), line)
        } else {
            listed(cols.as_slice(), line)
        };
        if !inside {
            let others: &Vec<usize> = if by_cols {
                cols
            } else {
                rows
            };
            let mut t: usize = 0;
            while t < others.len()
                invariant
                    board@.shaped(),
                    n == board@.size(),
                    ascending(rows@, board@.size()),
                    ascending(cols@, board@.size()),
                    val < 16,
                    line < n,
                    t <= others.len(),
                    others@ == (if by_cols {
                        cols@
                    } else {
                        rows@
                    }),
                    by_cols ==> !rows@.contains(line),
                    !by_cols ==> !cols@.contains(line),
                    by_cols ==> forall|j: int|
                        0 <= j < t ==> !offers(
                            #[trigger] board@.at(Cell { row: line, col: cols@[j] }),
                            val,
                        ),
                    !by_cols ==> forall|i: int|
                        0 <= i < t ==> !offers(
                            #[trigger] board@.at(Cell { row: rows@[i], col: line }),
                            val,
                        ),
                decreases others.len() - t,
            {
                let cell = if by_cols {
                    Cell { row: line, col: others[t] }
                } else {
                    Cell { row: others[t], col: line }
                };
                if is_set(board.mask(cell), val) {
                    proof {
                        if by_cols {
                            assert(
                                offers(board@.at(Cell { row: line, col: cols@[t as int] }), val)
                            );
                        } else {
                            assert(
                                offers(board@.at(Cell { row: rows@[t as int], col: line }), val)
                            );
                        }
                    }
                    return false;
                }
                t += 1;
            }
        }
        line += 1;
    }
    true
}

/// Adds to `found` the fish on the given rows and columns.
fn scan_crossing(board: &Board, rows: &Vec<usize>, cols: &Vec<usize>, found: &mut Vec<Fish>)
    requires
        board@.shaped(),
        rows.len() == cols.len(),
        ascending(rows@, board@.size()),
        ascending(cols@, board@.size()),
    ensures
        forall|p: FishView|
            #[trigger] views(old(found)@).contains(p) ==> views(final(found)@).contains(p),
        forall|p: FishView| #[trigger]
            views(final(found)@).contains(p) ==> views(old(found)@).contains(p) || board@.is_fish(
                rows.len() as int,
                p,
            ),
        forall|p: FishView| #[trigger]
            board@.is_fish(rows.len() as int, p) && p.rows == rows@ && p.cols == cols@ ==> views(
                final(found)@,
            ).contains(p),
{
    let n: usize = board.size();
    let mut d: u16 = 1;
    while d as usize <= n
        invariant
            board@.shaped(),
            n == board@.size(),
            rows.len() == cols.len(),
            ascending(rows@, board@.size()),
            ascending(cols@, board@.size()),
            1 <= d <= n + 1,
            forall|p: FishView|
                #[trigger] views(old(found)@).contains(p) ==> views(found@).contains(p),
            forall|p: FishView| #[trigger]
                views(found@).contains(p) ==> views(old(found)@).contains(p) || board@.is_fish(
                    rows.len() as int,
                    p,
                ),
            forall|p: FishView| #[trigger]
                board@.is_fish(rows.len() as int, p) && p.rows == rows@ && p.cols == cols@
                    && p.val < d
                    ==> views(found@).contains(p),
        decreases n + 1 - d,
    {
        if corners_offer(board, rows, cols, d) {
            if confined(board, false, rows, cols, d) {
                record(
                    found,
                    Fish { clear_rows: false, rows: copy_of(rows), cols: copy_of(cols), val: d },
                );
            }
            if confined(board, true, rows, cols, d) {
                record(
                    found,
                    Fish { clear_rows: true, rows: copy_of(rows), cols: copy_of(cols), val: d },
                );
            }
        }
        proof {
            assert forall|p: FishView| #[trigger]
                board@.is_fish(rows.len() as int, p) && p.rows == rows@ && p.cols == cols@ && p.val
                    == d implies views(found@).contains(p) by {
                let q = FishView { clear_rows: p.clear_rows, rows: rows@, cols: cols@, val: d };
                assert(p == q);
            }
        }
        d += 1;
    }
}

/// The fish of size `s` of the board.
pub fn fish(board: &Board, s: usize) -> (found: Vec<Fish>)
    requires
        board@.shaped(),
    ensures
        forall|p: FishView| #[trigger] views(found@).contains(p) <==> board@.is_fish(s as int, p),
{
    let n: usize = board.size();
    let lines = choices(n, s);
    let mut found: Vec<Fish> = Vec::new();
    let mut i: usize = 0;
    while i < lines.len()
        invariant
            board@.shaped(),
            n == board@.size(),
            i <= lines.len(),
            forall|x: Seq<usize>| #[trigger]
                views(lines@).contains(x) <==> x.len() == s && ascending(x, n as int),
            forall|p: FishView|
                #[trigger] views(found@).contains(p) ==> board@.is_fish(s as int, p),
            forall|p: FishView, a: int| #[trigger]
                board@.is_fish(s as int, p) && 0 <= a < i && #[trigger] lines[a]@ == p.rows ==>
                    views(
                    found@,
                ).contains(p),
        decreases lines.len() - i,
    {
        let rows: &Vec<usize> = &lines[i];
        proof {
            assert(views(lines@)[i as int] == rows@);
            assert(views(lines@).contains(rows@));
        }
        let mut j: usize = 0;
        while j < lines.len()
            invariant
                board@.shaped(),
                n == board@.size(),
                i < lines.len(),
                j <= lines.len(),
                rows@ == lines[i as int]@,
                rows@.len() == s,
                ascending(rows@, n as int),
                forall|x: Seq<usize>| #[trigger]
                    views(lines@).contains(x) <==> x.len() == s && ascending(x, n as int),
                forall|p: FishView|
                    #[trigger] views(found@).contains(p) ==> board@.is_fish(s as int, p),
                forall|p: FishView, a: int| #[trigger]
                    board@.is_fish(s as int, p) && 0 <= a < i && #[trigger] lines[a]@ == p.rows
                        ==> views(found@).contains(p),
                forall|p: FishView, b: int| #[trigger]
                    board@.is_fish(s as int, p) && p.rows == rows@ && 0 <= b < j
                        && #[trigger] lines[b]@
                        == p.cols ==> views(found@).contains(p),
            decreases lines.len() - j,
        {
            let cols: &Vec<usize> = &lines[j];
            proof {
                assert(views(lines@)[j as int] == cols@);
                assert(views(lines@).contains(cols@));
            }
            let ghost had = views(found@);
            scan_crossing(board, rows, cols, &mut found);
            proof {
                assert forall|p: FishView, b: int| #[trigger]
                    board@.is_fish(s as int, p) && p.rows == rows@ && 0 <= b < j + 1
                        && #[trigger] lines[b]@
                        == p.cols implies views(found@).contains(p) by {
                    if b < j {
                        assert(had.contains(p));
                    } else {
                        assert(board@.is_fish(rows.len() as int, p) && p.cols == cols@);
                    }
                }
                assert forall|p: FishView, a: int| #[trigger]
                    board@.is_fish(s as int, p) && 0 <= a < i
                        && #[trigger] lines[a]@ == p.rows implies
                        views(
                    found@,
                ).contains(p) by {
                    assert(had.contains(p));
                }
            }
            j += 1;
        }
        proof {
            assert forall|p: FishView| #[trigger]
                board@.is_fish(s as int, p) && p.rows == rows@ implies
                    views(found@).contains(p) by {
                assert(views(lines@).contains(p.cols));
                let b = choose|b: int| 0 <= b < views(lines@).len() && views(lines@)[b] == p.cols;
                assert(lines[b]@ == p.cols);
            }
        }
        i += 1;
    }
    proof {
        assert forall|p: FishView| #[trigger] board@.is_fish(s as int, p) implies views(
            found@,
        ).contains(p) by {
            assert(views(lines@).contains(p.rows));
            let a = choose|a: int| 0 <= a < views(lines@).len() && views(lines@)[a] == p.rows;
            assert(lines[a]@ == p.rows);
        }
    }
    found
}

/// The X-wings of the board.
pub fn from_board(board: &Board) -> (found: Vec<XWing2>)
    requires
        board@.shaped(),
    ensures
        forall|p: FishView| #[trigger] views(found@).contains(p) <==> board@.is_fish(2, p),
{
    let all = fish(board, 2);
    let mut found: Vec<XWing2> = Vec::new();
    let mut i: usize = 0;
    while i < all.len()
        invariant
            i <= all.len(),
            forall|p: FishView| #[trigger] views(all@).contains(p) <==> board@.is_fish(2, p),
            found.len() == i,
            forall|j: int| 0 <= j < i ==> (#[trigger] found[j])@ == all[j]@,
        decreases all.len() - i,
    {
        let f: &Fish = &all[i];
        proof {
            assert(views(all@)[i as int] == f@);
            assert(views(all@).contains(f@));
        }
        let x = XWing2 {
            clear_rows: f.clear_rows,
            rows: [f.rows[0], f.rows[1]],
            cols: [f.cols[0], f.cols[1]],
            val: f.val,
        };
        assert(x.rows@ =~= f.rows@);
        assert(x.cols@ =~= f.cols@);
        found.push(x);
        i += 1;
    }
    assert(views(found@) =~= views(all@));
    found
}

/// The X-wings of the board.
pub fn from_board2(board: &Board) -> (found: Vec<XWing2>)
    requires
        board@.shaped(),
    ensures
        forall|p: FishView| #[trigger] views(found@).contains(p) <==> board@.is_fish(2, p),
{
    from_board(board)
}

/// The swordfish of the board.
pub fn from_board3(board: &Board) -> (found: Vec<XWing3>)
    requires
        board@.shaped(),
    ensures
        forall|p: FishView| #[trigger] views(found@).contains(p) <==> board@.is_fish(3, p),
{
    let all = fish(board, 3);
    let mut found: Vec<XWing3> = Vec::new();
    let mut i: usize = 0;
    while i < all.len()
        invariant
            i <= all.len(),
            forall|p: FishView| #[trigger] views(all@).contains(p) <==> board@.is_fish(3, p),
            found.len() == i,
            forall|j: int| 0 <= j < i ==> (#[trigger] found[j])@ == all[j]@,
        decreases all.len() - i,
    {
        let f: &Fish = &all[i];
        proof {
            assert(views(all@)[i as int] == f@);
            assert(views(all@).contains(f@));
        }
        let x = XWing3 {
            clear_rows: f.clear_rows,
            rows: [f.rows[0], f.rows[1], f.rows[2]],
            cols: [f.cols[0], f.cols[1], f.cols[2]],
            val: f.val,
        };
        assert(x.rows@ =~= f.rows@);
        assert(x.cols@ =~= f.cols@);
        found.push(x);
        i += 1;
    }
    assert(views(found@) =~= views(all@));
    found
}

} // verus!
