//! The board as text: a grid of box-drawing characters, with the digit of
//! each cell where the board is solved and its candidates where it is not.

use vstd::prelude::*;
use crate::bits::{is_set, lowest_digit, offers};
use crate::board::{Board, Cell};
use crate::defaults::{default_region_bounds, region_bounds};
use crate::grid::Grid;

verus! {

/// The character of a digit; a blank for what is no decimal digit.
pub open spec fn digit_char(d: u16) -> char {
    if d == 0 {
        '0'
    } else if d == 1 {
        '1'
    } else if d == 2 {
        '2'
    } else if d == 3 {
        '3'
    } else if d == 4 {
        '4'
    } else if d == 5 {
        '5'
    } else if d == 6 {
        '6'
    } else if d == 7 {
        '7'
    } else if d == 8 {
        '8'
    } else if d == 9 {
        '9'
    } else {
        ' '
    }
}

/// `n` times the character `c`.
pub open spec fn repeat(c: char, n: int) -> Seq<char> {
    Seq::new(n as nat, |i: int| c)
}

/// `sep` where an item is not the first of its row.
pub open spec fn between(i: int, sep: Seq<char>) -> Seq<char> {
    if i > 0 {
        sep
    } else {
        Seq::empty()
    }
}

/// The first `n` cells of a rule within one box: `w` fill characters each, `minor` between them.
pub open spec fn fills_upto(w: int, minor: char, fill: char, n: int) -> Seq<char>
    decreases n,
{
    if n <= 0 {
        Seq::empty()
    } else {
        fills_upto(w, minor, fill, n - 1) + between(n - 1, seq![minor]) + repeat(fill, w)
    }
}

/// The first `n` boxes of a rule: `cells` cells each, `major` between them.
pub open spec fn rule_upto(w: int, cells: int, major: char, minor: char, fill: char, n: int) -> Seq<char>
    decreases n,
{
    if n <= 0 {
        Seq::empty()
    } else {
        rule_upto(w, cells, major, minor, fill, n - 1) + between(n - 1, seq![major]) + fills_upto(
            w,
            minor,
            fill,
            cells,
        )
    }
}

/// A horizontal rule over `boxes` boxes of `cells` cells, each cell `w` characters wide.
pub open spec fn rule(
    w: int,
    cells: int,
    boxes: int,
    left: char,
    major: char,
    minor: char,
    fill: char,
    right: char,
) -> Seq<char> {
    seq![left] + rule_upto(w, cells, major, minor, fill, boxes) + seq![right]
}

impl Grid {
    /// One row of the candidates of a cell: the digits `1 + r * w ..= w + r * w`,
    /// each in its place if the cell offers it.
    pub open spec fn candidate_row(self, c: Cell, w: int, r: int) -> Seq<char> {
        Seq::new(
            w as nat,
            |k: int|
                if offers(self.at(c), (k + 1 + r * w) as u16) {
                    digit_char((k + 1 + r * w) as u16)
                } else {
                    ' '
                },
        )
    }

    /// The first `n` cells of a box in a line of candidates.
    pub open spec fn candidate_cells_upto(self, w: int, row: int, first_col: int, r: int, n: int) -> Seq<
        char,
    >
        decreases n,
    {
        if n <= 0 {
            Seq::empty()
        } else {
            self.candidate_cells_upto(w, row, first_col, r, n - 1) + between(n - 1, seq!['│'])
                + self.candidate_row(
                Cell { row: row as usize, col: (first_col + n - 1) as usize },
                w,
                r,
            )
        }
    }

    /// The first `n` boxes of a line of candidates.
    pub open spec fn candidate_boxes_upto(self, w: int, row: int, r: int, n: int) -> Seq<char>
        decreases n,
    {
        if n <= 0 {
            Seq::empty()
        } else {
            self.candidate_boxes_upto(w, row, r, n - 1) + between(n - 1, seq!['║'])
                + self.candidate_cells_upto(w, row, (n - 1) * w, r, w)
        }
    }

    /// One line of candidates: row `r` of the candidates of the cells of row `row`.
    pub open spec fn candidate_line(self, w: int, h: int, row: int, r: int) -> Seq<char> {
        seq!['║'] + self.candidate_boxes_upto(w, row, r, h) + seq!['║']
    }

    /// The first `n` lines of candidates of a row of cells, each after a newline.
    pub open spec fn candidate_lines_upto(self, w: int, h: int, row: int, n: int) -> Seq<char>
        decreases n,
    {
        if n <= 0 {
            Seq::empty()
        } else {
            self.candidate_lines_upto(w, h, row, n - 1) + seq!['\n'] + self.candidate_line(
                w,
                h,
                row,
                n - 1,
            )
        }
    }

    /// The first `n` rows of cells of a band of boxes, a light rule between them.
    pub open spec fn candidate_rows_upto(self, w: int, h: int, band: int, n: int) -> Seq<char>
        decreases n,
    {
        if n <= 0 {
            Seq::empty()
        } else {
            self.candidate_rows_upto(w, h, band, n - 1) + between(
                n - 1,
                seq!['\n'] + rule(w, w, h, '╟', '╫', '┼', '─', '╢'),
            ) + self.candidate_lines_upto(w, h, band * h + n - 1, h)
        }
    }

    /// The first `n` bands of boxes, a heavy rule between them.
    pub open spec fn candidate_bands_upto(self, w: int, h: int, n: int) -> Seq<char>
        decreases n,
    {
        if n <= 0 {
            Seq::empty()
        } else {
            self.candidate_bands_upto(w, h, n - 1) + between(
                n - 1,
                seq!['\n'] + rule(w, w, h, '╠', '╬', '╪', '═', '╣'),
            ) + self.candidate_rows_upto(w, h, n - 1, h)
        }
    }

    /// The text of a board that is not solved: every cell with its
    /// candidates, `h` rows of `w` digits, in boxes `w` cells wide and `h` tall.
    pub open spec fn candidates_text(self, w: int, h: int) -> Seq<char> {
        rule(w, w, h, '╔', '╦', '╤', '═', '╗') + self.candidate_bands_upto(w, h, w) + seq!['\n']
            + rule(w, w, h, '╚', '╩', '╧', '═', '╝')
    }

    /// The digit of a solved cell.
    pub open spec fn digit_at(self, c: Cell) -> u16 {
        choose|d: u16| offers(self.at(c), d) && forall|e: u16| e < d ==> !offers(self.at(c), e)
    }

    /// The first `n` digits of a box in a line of a solved board.
    pub open spec fn solved_cells_upto(self, row: int, first_col: int, n: int) -> Seq<char>
        decreases n,
    {
        if n <= 0 {
            Seq::empty()
        } else {
            self.solved_cells_upto(row, first_col, n - 1).push(
                digit_char(
                    self.digit_at(Cell { row: row as usize, col: (first_col + n - 1) as usize })
                ),
            )
        }
    }

    /// The first `n` boxes of a line of a solved board.
    pub open spec fn solved_boxes_upto(self, w: int, row: int, n: int) -> Seq<char>
        decreases n,
    {
        if n <= 0 {
            Seq::empty()
        } else {
            self.solved_boxes_upto(w, row, n - 1) + between(n - 1, seq!['│']) + self.solved_cells_upto(
                row,
                (n - 1) * w,
                w,
            )
        }
    }

    /// The first `n` lines of a band of a solved board, each after a newline.
    pub open spec fn solved_lines_upto(self, w: int, h: int, band: int, n: int) -> Seq<char>
        decreases n,
    {
        if n <= 0 {
            Seq::empty()
        } else {
            self.solved_lines_upto(w, h, band, n - 1) + seq!['\n', '║'] + self.solved_boxes_upto(
                w,
                band * h + n - 1,
                h,
            ) + seq!['║']
        }
    }

    /// The first `n` bands of a solved board, a light rule between them.
    pub open spec fn solved_bands_upto(self, w: int, h: int, n: int) -> Seq<char>
        decreases n,
    {
        if n <= 0 {
            Seq::empty()
        } else {
            self.solved_bands_upto(w, h, n - 1) + between(
                n - 1,
                seq!['\n'] + rule(w, 1, h, '╟', '┼', '┼', '─', '╢'),
            ) + self.solved_lines_upto(w, h, n - 1, h)
        }
    }

    /// The text of a solved board: every cell with its digit, in boxes `w`
    /// cells wide and `h` tall.
    pub open spec fn solved_text(self, w: int, h: int) -> Seq<char> {
        rule(w, 1, h, '╔', '╤', '╤', '═', '╗') + self.solved_bands_upto(w, h, w) + seq!['\n'] + rule(
            w,
            1,
            h,
            '╚',
            '╧',
            '╧',
            '═',
            '╝',
        )
    }

    /// The text of the board.
    pub open spec fn text(self) -> Seq<char> {
        if self.solved() {
            self.solved_text(
                region_bounds(self.size()).0 as int, region_bounds(self.size()).1 as int
            )
        } else {
            self.candidates_text(
                region_bounds(self.size()).0 as int,
                region_bounds(self.size()).1 as int,
            )
        }
    }
}

/// The character of a digit.
pub fn digit_to_char(d: u16) -> (c: char)
    ensures
        c == digit_char(d),
{
    if d == 0 {
        '0'
    } else if d == 1 {
        '1'
    } else if d == 2 {
        '2'
    } else if d == 3 {
        '3'
    } else if d == 4 {
        '4'
    } else if d == 5 {
        '5'
    } else if d == 6 {
        '6'
    } else if d == 7 {
        '7'
    } else if d == 8 {
        '8'
    } else if d == 9 {
        '9'
    } else {
        ' '
    }
}

/// Appends `part` to `out`.
fn append(out: &mut Vec<char>, part: &Vec<char>)
    ensures
        final(out)@ == old(out)@ + part@,
{
    let mut i: usize = 0;
    assert(out@ =~= old(out)@ + part@.take(0));
    while i < part.len()
        invariant
            i <= part.len(),
            out@ == old(out)@ + part@.take(i as int),
        decreases part.len() - i,
    {
        out.push(part[i]);
        assert(out@ =~= old(out)@ + part@.take(i + 1));
        i += 1;
    }
    assert(part@.take(part.len() as int) =~= part@);
}

/// Appends `sep` where `i` is not the first.
fn append_between(out: &mut Vec<char>, i: usize, sep: &Vec<char>)
    ensures
        final(out)@ == old(out)@ + between(i as int, sep@),
{
    if i > 0 {
        append(out, sep);
    } else {
        assert(out@ =~= old(out)@ + between(i as int, sep@));
    }
}

fn one(c: char) -> (r: Vec<char>)
    ensures
        r@ == seq![c],
{
    let mut out: Vec<char> = Vec::new();
    out.push(c);
    assert(out@ =~= seq![c]);
    out
}

fn repeated(c: char, n: usize) -> (r: Vec<char>)
    ensures
        r@ == repeat(c, n as int),
{
    let mut out: Vec<char> = Vec::new();
    let mut k: usize = 0;
    assert(out@ =~= repeat(c, 0));
    while k < n
        invariant
            k <= n,
            out@ == repeat(c, k as int),
        decreases n - k,
    {
        out.push(c);
        assert(out@ =~= repeat(c, k + 1));
        k += 1;
    }
    out
}

/// A horizontal rule.
fn rule_text(
    w: usize,
    cells: usize,
    boxes: usize,
    left: char,
    major: char,
    minor: char,
    fill: char,
    right: char,
) -> (r: Vec<char>)
    ensures
        r@ == rule(w as int, cells as int, boxes as int, left, major, minor, fill, right),
{
    let run = repeated(fill, w);
    let mut fills: Vec<char> = Vec::new();
    let mut j: usize = 0;
    while j < cells
        invariant
            j <= cells,
            run@ == repeat(fill, w as int),
            fills@ == fills_upto(w as int, minor, fill, j as int),
        decreases cells - j,
    {
        append_between(&mut fills, j, &one(minor));
        append(&mut fills, &run);
        j += 1;
    }
    let mut inner: Vec<char> = Vec::new();
    let mut i: usize = 0;
    while i < boxes
        invariant
            i <= boxes,
            fills@ == fills_upto(w as int, minor, fill, cells as int),
            inner@ == rule_upto(w as int, cells as int, major, minor, fill, i as int),
        decreases boxes - i,
    {
        append_between(&mut inner, i, &one(major));
        append(&mut inner, &fills);
        i += 1;
    }
    let mut out = one(left);
    append(&mut out, &inner);
    append(&mut out, &one(right));
    out
}

/// A newline and then `line`.
fn on_new_line(line: Vec<char>) -> (r: Vec<char>)
    ensures
        r@ == seq!['\n'] + line@,
{
    let mut out = one('\n');
    append(&mut out, &line);
    out
}

/// One line of candidates.
fn candidate_line_text(board: &Board, w: usize, h: usize, row: usize, r: usize) -> (out: Vec<char>)
    requires
        board@.shaped(),
        1 <= w <= 3,
        1 <= h <= 3,
        w * h == board@.size(),
        row < board@.size(),
        r < h,
    ensures
        out@ == board@.candidate_line(w as int, h as int, row as int, r as int),
{
    let ghost g = board@;
    let mut boxes: Vec<char> = Vec::new();
    let mut b: usize = 0;
    while b < h
        invariant
            board@.shaped(),
            g == board@,
            1 <= w <= 3,
            1 <= h <= 3,
            w * h == g.size(),
            row < g.size(),
            r < h,
            b <= h,
            boxes@ == g.candidate_boxes_upto(w as int, row as int, r as int, b as int),
        decreases h - b,
    {
        assert(b * w + w <= w * h && r * w + w <= w * h && w * h <= 9) by (nonlinear_arith)
            requires
                b < h,
                r < h,
                1 <= w <= 3,
                h <= 3,
        ;
        let first_col: usize = b * w;
        let mut cells: Vec<char> = Vec::new();
        let mut c: usize = 0;
        while c < w
            invariant
                board@.shaped(),
                g == board@,
                1 <= w <= 3,
                1 <= h <= 3,
                w * h == g.size(),
                row < g.size(),
                first_col + w <= g.size(),
                r * w + w <= w * h,
                g.size() <= 9,
                c <= w,
                cells@ == g.candidate_cells_upto(
                    w as int,
                    row as int,
                    first_col as int,
                    r as int,
                    c as int,
                ),
            decreases w - c,
        {
            let cell = Cell { row, col: first_col + c };
            let m: u16 = board.mask(cell);
            let mut digits: Vec<char> = Vec::new();
            let mut k: usize = 0;
            while k < w
                invariant
                    1 <= w <= 3,
                    r * w + w <= w * h,
                    w * h <= 9,
                    m == g.at(cell),
                    k <= w,
                    digits.len() == k,
                    forall|q: int|
                        0 <= q < k ==> #[trigger] digits@[q] == g.candidate_row(
                            cell,
                            w as int,
                            r as int,
                        )[q],
                decreases w - k,
            {
                let d: u16 = (k + 1 + r * w) as u16;
                digits.push(
                    if is_set(m, d) {
                        digit_to_char(d)
                    } else {
                        ' '
                    },
                );
                k += 1;
            }
            assert(digits@ =~= g.candidate_row(cell, w as int, r as int));
            append_between(&mut cells, c, &one('│'));
            append(&mut cells, &digits);
            c += 1;
        }
        append_between(&mut boxes, b, &one('║'));
        append(&mut boxes, &cells);
        b += 1;
    }
    let mut out = one('║');
    append(&mut out, &boxes);
    append(&mut out, &one('║'));
    out
}

/// The text of a board with the candidates of every cell.
fn candidates_text(board: &Board, w: usize, h: usize) -> (out: Vec<char>)
    requires
        board@.shaped(),
        1 <= w <= 3,
        1 <= h <= 3,
        w * h == board@.size(),
    ensures
        out@ == board@.candidates_text(w as int, h as int),
{
    let ghost g = board@;
    let heavy = on_new_line(rule_text(w, w, h, '╠', '╬', '╪', '═', '╣'));
    let light = on_new_line(rule_text(w, w, h, '╟', '╫', '┼', '─', '╢'));
    let mut bands: Vec<char> = Vec::new();
    let mut band: usize = 0;
    while band < w
        invariant
            board@.shaped(),
            g == board@,
            1 <= w <= 3,
            1 <= h <= 3,
            w * h == g.size(),
            band <= w,
            heavy@ == seq!['\n'] + rule(w as int, w as int, h as int, '╠', '╬', '╪', '═', '╣'),
            light@ == seq!['\n'] + rule(w as int, w as int, h as int, '╟', '╫', '┼', '─', '╢'),
            bands@ == g.candidate_bands_upto(w as int, h as int, band as int),
        decreases w - band,
    {
        assert(band * h + h <= w * h) by (nonlinear_arith)
            requires
                band < w,
                1 <= h,
        ;
        let mut rows: Vec<char> = Vec::new();
        let mut n: usize = 0;
        while n < h
            invariant
                board@.shaped(),
                g == board@,
                1 <= w <= 3,
                1 <= h <= 3,
                w * h == g.size(),
                band * h + h <= w * h,
                n <= h,
                light@ == seq!['\n'] + rule(w as int, w as int, h as int, '╟', '╫', '┼', '─', '╢'),
                rows@ == g.candidate_rows_upto(w as int, h as int, band as int, n as int),
            decreases h - n,
        {
            let row: usize = band * h + n;
            let mut lines: Vec<char> = Vec::new();
            let mut r: usize = 0;
            while r < h
                invariant
                    board@.shaped(),
                    g == board@,
                    1 <= w <= 3,
                    1 <= h <= 3,
                    w * h == g.size(),
                    row < g.size(),
                    r <= h,
                    lines@ == g.candidate_lines_upto(w as int, h as int, row as int, r as int),
                decreases h - r,
            {
                append(&mut lines, &on_new_line(candidate_line_text(board, w, h, row, r)));
                proof {
                    let prev = g.candidate_lines_upto(w as int, h as int, row as int, r as int);
                    let line = g.candidate_line(w as int, h as int, row as int, r as int);
                    assert(prev + (seq!['\n'] + line) =~= prev + seq!['\n'] + line);
                }
                r += 1;
            }
            append_between(&mut rows, n, &light);
            append(&mut rows, &lines);
            n += 1;
        }
        append_between(&mut bands, band, &heavy);
        append(&mut bands, &rows);
        band += 1;
    }
    let mut out = rule_text(w, w, h, '╔', '╦', '╤', '═', '╗');
    append(&mut out, &bands);
    append(&mut out, &one('\n'));
    append(&mut out, &rule_text(w, w, h, '╚', '╩', '╧', '═', '╝'));
    out
}

/// The text of a solved board.
pub fn format_solved(board: &Board) -> (r: Option<Vec<char>>)
    requires
        board@.shaped(),
        board@.solved(),
        board@.size() == 4 || board@.size() == 6 || board@.size() == 9,
    ensures
        r matches Some(text) && text@ == board@.solved_text(
            region_bounds(board@.size()).0 as int,
            region_bounds(board@.size()).1 as int,
        ),
{
    let ghost g = board@;
    let (w, h) = default_region_bounds(board.size());
    let light = on_new_line(rule_text(w, 1, h, '╟', '┼', '┼', '─', '╢'));
    let mut bands: Vec<char> = Vec::new();
    let mut band: usize = 0;
    while band < w
        invariant
            board@.shaped(),
            board@.solved(),
            g == board@,
            1 <= w <= 3,
            1 <= h <= 3,
            w * h == g.size(),
            band <= w,
            light@ == seq!['\n'] + rule(w as int, 1, h as int, '╟', '┼', '┼', '─', '╢'),
            bands@ == g.solved_bands_upto(w as int, h as int, band as int),
        decreases w - band,
    {
        assert(band * h + h <= w * h) by (nonlinear_arith)
            requires
                band < w,
                1 <= h,
        ;
        let mut lines: Vec<char> = Vec::new();
        let mut n: usize = 0;
        while n < h
            invariant
                board@.shaped(),
                board@.solved(),
                g == board@,
                1 <= w <= 3,
                1 <= h <= 3,
                w * h == g.size(),
                band * h + h <= w * h,
                n <= h,
                lines@ == g.solved_lines_upto(w as int, h as int, band as int, n as int),
            decreases h - n,
        {
            let row: usize = band * h + n;
            let mut boxes: Vec<char> = Vec::new();
            let mut b: usize = 0;
            while b < h
                invariant
                    board@.shaped(),
                    board@.solved(),
                    g == board@,
                    1 <= w <= 3,
                    1 <= h <= 3,
                    w * h == g.size(),
                    row < g.size(),
                    b <= h,
                    boxes@ == g.solved_boxes_upto(w as int, row as int, b as int),
                decreases h - b,
            {
                assert(b * w + w <= w * h) by (nonlinear_arith)
                    requires
                        b < h,
                        1 <= w,
                ;
                let first_col: usize = b * w;
                let mut cells: Vec<char> = Vec::new();
                let mut c: usize = 0;
                while c < w
                    invariant
                        board@.shaped(),
                        board@.solved(),
                        g == board@,
                        row < g.size(),
                        first_col + w <= g.size(),
                        c <= w,
                        cells@ == g.solved_cells_upto(row as int, first_col as int, c as int),
                    decreases w - c,
                {
                    let cell = Cell { row, col: first_col + c };
                    let m: u16 = board.mask(cell);
                    assert(crate::bits::single(g.at(cell)));
                    let d: u16 = lowest_digit(m);
                    assert(d == g.digit_at(cell)) by {
                        let e = g.digit_at(cell);
                        assert(
                            offers(g.at(cell), e) && forall|x: u16| x < e ==> !offers(g.at(cell), x)
                        );
                        if d < e {
                        } else if e < d {
                        }
                    }
                    cells.push(digit_to_char(d));
                    c += 1;
                }
                append_between(&mut boxes, b, &one('│'));
                append(&mut boxes, &cells);
                b += 1;
            }
            let mut line: Vec<char> = Vec::new();
            line.push('\n');
            line.push('║');
            assert(line@ =~= seq!['\n', '║']);
            append(&mut line, &boxes);
            append(&mut line, &one('║'));
            append(&mut lines, &line);
            proof {
                let prev = g.solved_lines_upto(w as int, h as int, band as int, n as int);
                let inner = g.solved_boxes_upto(w as int, row as int, h as int);
                assert(prev + (seq!['\n', '║'] + inner + seq!['║']) =~= prev + seq!['\n', '║'] + inner
                    + seq!['║']);
            }
            n += 1;
        }
        append_between(&mut bands, band, &light);
        append(&mut bands, &lines);
        band += 1;
    }
    let mut out = rule_text(w, 1, h, '╔', '╤', '╤', '═', '╗');
    append(&mut out, &bands);
    append(&mut out, &one('\n'));
    append(&mut out, &rule_text(w, 1, h, '╚', '╧', '╧', '═', '╝'));
    Some(out)
}

/// The text of the board: its digits where it is solved, else the
/// candidates of every cell.
pub fn format(board: &Board) -> (r: Option<Vec<char>>)
    requires
        board@.shaped(),
        board@.size() == 4 || board@.size() == 6 || board@.size() == 9,
    ensures
        r matches Some(text) && text@ == board@.text(),
{
    if board.is_solved() {
        return format_solved(board);
    }
    let (w, h) = default_region_bounds(board.size());
    Some(candidates_text(board, w, h))
}

} // verus!
