//! Puzzle text: one digit or blank for each cell, a newline after each row,
//! a blank line between puzzles. The text is taken as bytes.

use vstd::prelude::*;
use crate::bits::bit;
use crate::board::{Board, Cell, Contradiction};
use crate::defaults::{boxes, region_bounds};
use crate::grid::{fresh, Grid};

verus! {

/// A digit that the puzzle gives for a cell.
#[derive(Debug, Clone, Copy, PartialEq, Eq, Structural)]
pub struct Given {
    pub val: u16,
    pub cell: Cell,
}

/// Why a puzzle could not be set up.
#[derive(Debug, Clone, Copy, PartialEq, Eq, Structural)]
pub enum LoadError {
    /// The first line has a length for which there is no default board.
    Size(usize),
    /// A digit stands outside the grid.
    OutOfGrid(Cell),
    /// The digits given contradict each other.
    Contradiction,
}

/// The line feed.
pub const NEWLINE: u8 = 10;

/// The value of a hexadecimal digit; every other byte is a blank.
pub open spec fn hex_value(b: u8) -> Option<u16> {
    if 48 <= b <= 57 {
        Some((b - 48) as u16)
    } else if 97 <= b <= 102 {
        Some((b - 87) as u16)
    } else if 65 <= b <= 70 {
        Some((b - 55) as u16)
    } else {
        None
    }
}

/// The number of newlines before position `p`: the row of what stands there.
pub open spec fn row_of(s: Seq<u8>, p: int) -> nat
    decreases p,
{
    if p <= 0 {
        0
    } else {
        row_of(s, p - 1) + if s[p - 1] == NEWLINE {
            1nat
        } else {
            0nat
        }
    }
}

/// The distance of position `p` from the start of its line: the column of
/// what stands there.
pub open spec fn col_of(s: Seq<u8>, p: int) -> nat
    decreases p,
{
    if p <= 0 || s[p - 1] == NEWLINE {
        0
    } else {
        col_of(s, p - 1) + 1
    }
}

/// The digits given before position `p`, with their cells, in the order of the text.
pub open spec fn givens_upto(s: Seq<u8>, p: int) -> Seq<Given>
    decreases p,
{
    if p <= 0 {
        Seq::empty()
    } else {
        match hex_value(s[p - 1]) {
            Some(v) => givens_upto(s, p - 1).push(
                Given { val: v, cell: Cell { row: row_of(s, p - 1) as usize, col: col_of(s, p - 1) as usize } },
            ),
            None => givens_upto(s, p - 1),
        }
    }
}

/// The digits given in the text.
pub open spec fn givens(s: Seq<u8>) -> Seq<Given> {
    givens_upto(s, s.len() as int)
}

/// The end of the line that position `p` is in.
pub open spec fn line_end(s: Seq<u8>, p: int) -> int
    decreases s.len() - p,
{
    if p >= s.len() || s[p] == NEWLINE {
        p
    } else {
        line_end(s, p + 1)
    }
}

/// A blank line begins at `i`: two newlines in a row.
pub open spec fn is_break(s: Seq<u8>, i: int) -> bool {
    0 <= i && i + 1 < s.len() && s[i] == NEWLINE && s[i + 1] == NEWLINE
}

/// `parts` are the puzzles of the text: they begin at its start and end at
/// its end, none holds the beginning of a blank line, and between each and
/// the next stand the two newlines of one.
pub open spec fn parts_of(s: Seq<u8>, parts: Seq<(usize, usize)>) -> bool {
    &&& parts.len() >= 1
    &&& parts[0].0 == 0
    &&& parts.last().1 == s.len()
    &&& forall|j: int|
        0 <= j < parts.len() ==> (#[trigger] parts[j]).0 <= parts[j].1 <= s.len() && forall|i: int|
            parts[j].0 <= i < parts[j].1 ==> !is_break(s, i)
    &&& forall|j: int|
        0 <= j < parts.len() - 1 ==> is_break(s, (#[trigger] parts[j]).1 as int) && parts[j + 1].0
            == parts[j].1 + 2
}

/// What setting up a board comes to: from `g` the given digits are placed
/// one after the other, and the first that stands outside the grid or that
/// contradicts the ones before ends it.
pub open spec fn loaded(g: Grid, gs: Seq<Given>, res: Result<Grid, LoadError>) -> bool
    decreases gs.len(),
{
    if gs.len() == 0 {
        res == Ok::<Grid, LoadError>(g)
    } else if !g.holds(gs[0].cell) {
        res == Err::<Grid, LoadError>(LoadError::OutOfGrid(gs[0].cell))
    } else {
        exists|ok: bool, mid: Grid| #[trigger]
            g.with_mask(gs[0].cell, bit(gs[0].val)).cascades(
                g.peer_strikes(gs[0].cell, gs[0].val),
                ok,
                mid,
            ) && (if ok {
                loaded(mid, gs.drop_first(), res)
            } else {
                res == Err::<Grid, LoadError>(LoadError::Contradiction)
            })
    }
}

/// The value of a hexadecimal digit, `None` for every other byte.
pub fn hex_digit(b: u8) -> (r: Option<u16>)
    ensures
        r == hex_value(b),
        r matches Some(v) ==> v < 16,
{
    if 48 <= b && b <= 57 {
        Some((b - 48) as u16)
    } else if 97 <= b && b <= 102 {
        Some((b - 87) as u16)
    } else if 65 <= b && b <= 70 {
        Some((b - 55) as u16)
    } else {
        None
    }
}

/// The length of the first line of the text.
pub fn first_line_len(text: &[u8]) -> (n: usize)
    ensures
        n == line_end(text@, 0),
{
    let mut p: usize = 0;
    while p < text.len() && text[p] != NEWLINE
        invariant
            p <= text.len(),
            line_end(text@, 0) == line_end(text@, p as int),
        decreases text.len() - p,
    {
        p += 1;
    }
    p
}

/// The digits that the text gives, each with its cell.
pub fn read_givens(text: &[u8]) -> (r: Vec<Given>)
    ensures
        r@ == givens(text@),
        forall|i: int| 0 <= i < r.len() ==> (#[trigger] r[i]).val < 16,
{
    let mut out: Vec<Given> = Vec::new();
    let mut row: usize = 0;
    let mut col: usize = 0;
    let mut p: usize = 0;
    while p < text.len()
        invariant
            p <= text.len(),
            row == row_of(text@, p as int),
            col == col_of(text@, p as int),
            row <= p,
            col <= p,
            out@ == givens_upto(text@, p as int),
            forall|i: int| 0 <= i < out.len() ==> (#[trigger] out[i]).val < 16,
        decreases text.len() - p,
    {
        let b: u8 = text[p];
        match hex_digit(b) {
            Some(v) => {
                out.push(Given { val: v, cell: Cell { row, col } });
            },
            None => {},
        }
        if b == NEWLINE {
            row += 1;
            col = 0;
        } else {
            col += 1;
        }
        p += 1;
    }
    out
}

/// The puzzles of the text, each as the positions where it begins and ends.
pub fn puzzle_ranges(text: &[u8]) -> (parts: Vec<(usize, usize)>)
    ensures
        parts_of(text@, parts@),
{
    let mut parts: Vec<(usize, usize)> = Vec::new();
    let mut start: usize = 0;
    let mut i: usize = 0;
    while i < text.len()
        invariant
            start <= i <= text.len(),
            parts.len() == 0 ==> start == 0,
            parts.len() > 0 ==> parts[0].0 == 0 && is_break(text@, parts@.last().1 as int) && start
                == parts@.last().1 + 2,
            forall|j: int|
                0 <= j < parts.len() ==>
                    (#[trigger] parts[j]).0 <= parts[j].1 <= text.len() && forall|
                    k: int,
                |
                    parts[j].0 <= k < parts[j].1 ==> !is_break(text@, k),
            forall|j: int|
                0 <= j < parts.len() - 1 ==>
                    is_break(text@, (#[trigger] parts[j]).1 as int) && parts[j
                    + 1].0 == parts[j].1 + 2,
            forall|k: int| start <= k < i ==> !is_break(text@, k),
        decreases text.len() - i,
    {
        if i + 1 < text.len() && text[i] == NEWLINE && text[i + 1] == NEWLINE {
            parts.push((start, i));
            i += 2;
            start = i;
        } else {
            i += 1;
        }
    }
    parts.push((start, text.len()));
    parts
}

/// The board of a puzzle: the default board of the size of the first line
/// with the given digits placed.
pub fn load_board(text: &[u8]) -> (res: Result<Board, LoadError>)
    ensures
        !(line_end(text@, 0) == 4 || line_end(text@, 0) == 6 || line_end(text@, 0) == 9) ==>
            res == Err::<
            Board,
            LoadError,
        >(LoadError::Size(line_end(text@, 0) as usize)),
        line_end(text@, 0) == 4 || line_end(text@, 0) == 6 || line_end(text@, 0) == 9 ==>
            match res {
            Ok(board) => board.wf() && loaded(
                start_grid(line_end(text@, 0)),
                givens(text@),
                Ok(board@),
            ),
            Err(e) => loaded(start_grid(line_end(text@, 0)), givens(text@), Err(e)),
        },
{
    let size = first_line_len(text);
    if !(size == 4 || size == 6 || size == 9) {
        return Err(LoadError::Size(size));
    }
    let mut board = Board::new(size);
    let list = read_givens(text);
    let ghost first = board@;
    let ghost gs = list@;
    let mut i: usize = 0;
    assert(gs.skip(0) =~= gs);
    while i < list.len()
        invariant
            i <= list.len(),
            gs == list@,
            gs == givens(text@),
            board.wf(),
            board@.size() == size,
            size == line_end(text@, 0),
            size == 4 || size == 6 || size == 9,
            first == start_grid(size as int),
            forall|k: int| 0 <= k < list.len() ==> (#[trigger] list[k]).val < 16,
            forall|res: Result<Grid, LoadError>| #[trigger]
                loaded(board@, gs.skip(i as int), res) ==> loaded(first, gs, res),
        decreases list.len() - i,
    {
        let x: Given = list[i];
        let ghost rest = gs.skip(i as int);
        let ghost cur = board@;
        assert(rest[0] == x);
        assert(rest.drop_first() =~= gs.skip(i + 1));
        if x.cell.row >= size || x.cell.col >= size {
            assert(loaded(cur, rest, Err(LoadError::OutOfGrid(x.cell))));
            return Err(LoadError::OutOfGrid(x.cell));
        }
        let placed = board.place_digit(x.val, x.cell);
        if placed.is_err() {
            assert(cur.with_mask(x.cell, bit(x.val)).cascades(
                cur.peer_strikes(x.cell, x.val),
                false,
                board@,
            ));
            assert(loaded(cur, rest, Err(LoadError::Contradiction)));
            return Err(LoadError::Contradiction);
        }
        proof {
            let next = board@;
            assert forall|res: Result<Grid, LoadError>| #[trigger]
                loaded(next, gs.skip(i + 1), res) implies loaded(first, gs, res) by {
                assert(cur.with_mask(x.cell, bit(x.val)).cascades(
                    cur.peer_strikes(x.cell, x.val),
                    true,
                    next,
                ));
                assert(loaded(cur, rest, res));
            }
        }
        i += 1;
    }
    proof {
        assert(gs.skip(list.len() as int).len() == 0);
        assert(loaded(board@, gs.skip(list.len() as int), Ok(board@)));
    }
    Ok(board)
}

/// The default board of the given size with nothing placed.
pub open spec fn start_grid(size: int) -> Grid {
    fresh(size, boxes(region_bounds(size).0 as int, region_bounds(size).1 as int))
}

} // verus!
