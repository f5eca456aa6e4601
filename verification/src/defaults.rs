//! The default geometry: the full candidate mask of a cell and the boxes of
//! the 4x4, 6x6 and 9x9 grids.

use vstd::prelude::*;
use vstd::arithmetic::div_mod::lemma_fundamental_div_mod_converse;
use crate::bits::{default_mask, full_mask, offers};
use crate::board::{Cell, Region};

verus! {

/// The cells of a box `width` columns wide and `height` rows tall whose
/// top-left corner is at column `ox`, row `oy`: column by column.
pub open spec fn box_cells(width: int, height: int, ox: int, oy: int) -> Seq<Cell> {
    Seq::new(
        (width * height) as nat,
        |t: int| Cell { col: (t / height + ox) as usize, row: (t % height + oy) as usize },
    )
}

/// The corners of `width` times `height` boxes, each `height` columns wide
/// and `width` rows tall: column of boxes by column of boxes.
pub open spec fn box_offsets(width: int, height: int) -> Seq<(usize, usize)> {
    Seq::new(
        (width * height) as nat,
        |k: int| (((k / height) * height) as usize, ((k % height) * width) as usize),
    )
}

/// The boxes of the grid of side `width * height`, each `width` columns wide
/// and `height` rows tall.
pub open spec fn boxes(width: int, height: int) -> Seq<Seq<Cell>> {
    Seq::new(
        (width * height) as nat,
        |k: int|
            box_cells(
                width,
                height,
                box_offsets(height, width)[k].0 as int,
                box_offsets(height, width)[k].1 as int,
            ),
    )
}

/// Width and height of the default boxes of a grid of the given size.
pub open spec fn region_bounds(size: int) -> (usize, usize) {
    if size == 4 {
        (2, 2)
    } else if size == 6 {
        (3, 2)
    } else {
        (3, 3)
    }
}

/// The contents of a list of regions.
pub open spec fn regions_view(regions: Vec<Region>) -> Seq<Seq<Cell>> {
    Seq::new(regions.len() as nat, |i: int| regions[i]@)
}

/// The default boxes lie on the grid.
pub proof fn lemma_boxes_on_grid(width: int, height: int)
    requires
        1 <= width <= 15,
        1 <= height <= 15,
    ensures
        boxes(width, height).len() == width * height,
        forall|i: int, j: int|
            0 <= i < width * height && 0 <= j < width * height ==> (#[trigger] boxes(
                width,
                height,
            )[i][j]).row < width * height && boxes(width, height)[i][j].col < width * height,
        forall|i: int|
            0 <= i < width * height ==>
                (#[trigger] boxes(width, height)[i]).len() == width * height,
{
    assert(height * width == width * height) by (nonlinear_arith);
    assert(0 < width * height <= 225) by (nonlinear_arith)
        requires
            1 <= width <= 15,
            1 <= height <= 15,
    ;
    assert forall|i: int, j: int|
        0 <= i < width * height && 0 <= j < width * height implies (#[trigger] boxes(
        width,
        height,
    )[i][j]).row < width * height && boxes(width, height)[i][j].col < width * height by {
        let ox = (i / width) * width;
        let oy = (i % width) * height;
        assert(0 <= i / width < height && 0 <= i % width < width && 0 <= j / height < width && 0
            <= j % height < height) by (nonlinear_arith)
            requires
                0 <= i < width * height,
                0 <= j < width * height,
                1 <= width,
                1 <= height,
        ;
        assert(0 <= ox <= (height - 1) * width && 0 <= oy <= (width - 1) * height
            && (height - 1) * width + width == width * height && (width - 1) * height + height
            == width * height) by (nonlinear_arith)
            requires
                ox == (i / width) * width,
                oy == (i % width) * height,
                0 <= i / width < height,
                0 <= i % width < width,
                1 <= width,
                1 <= height,
        ;
        assert(box_offsets(height, width)[i] == (ox as usize, oy as usize));
        assert(boxes(width, height)[i] == box_cells(width, height, ox, oy));
        assert(box_cells(width, height, ox, oy)[j] == Cell {
            col: (j / height + ox) as usize,
            row: (j % height + oy) as usize,
        });
    }
}

/// Every cell of the grid lies in one of the default boxes.
pub proof fn lemma_boxes_cover(width: int, height: int, c: Cell) -> (k: int)
    requires
        1 <= width <= 15,
        1 <= height <= 15,
        c.row < width * height,
        c.col < width * height,
    ensures
        0 <= k < width * height,
        boxes(width, height)[k].contains(c),
{
    let x = c.col as int / width;
    let y = c.row as int / height;
    let a = c.col as int % width;
    let b = c.row as int % height;
    assert(c.col == x * width + a && 0 <= a < width && 0 <= x < height) by (nonlinear_arith)
        requires
            x == c.col as int / width,
            a == c.col as int % width,
            0 <= c.col < width * height,
            1 <= width,
            1 <= height,
    ;
    assert(c.row == y * height + b && 0 <= b < height && 0 <= y < width) by (nonlinear_arith)
        requires
            y == c.row as int / height,
            b == c.row as int % height,
            0 <= c.row < width * height,
            1 <= width,
            1 <= height,
    ;
    let k = x * width + y;
    let t = a * height + b;
    assert(0 <= k < width * height && 0 <= t < width * height && height * width == width * height)
        by (nonlinear_arith)
        requires
            k == x * width + y,
            t == a * height + b,
            0 <= x < height,
            0 <= y < width,
            0 <= a < width,
            0 <= b < height,
    ;
    lemma_fundamental_div_mod_converse(k, width, x, y);
    lemma_fundamental_div_mod_converse(t, height, a, b);
    assert(0 <= x * width <= 225 && 0 <= y * height <= 225) by (nonlinear_arith)
        requires
            0 <= x < height <= 15,
            0 <= y < width <= 15,
    ;
    assert(box_offsets(height, width)[k] == ((x * width) as usize, (y * height) as usize));
    assert(boxes(width, height)[k] == box_cells(width, height, x * width, y * height));
    assert(box_cells(width, height, x * width, y * height)[t] == c);
    k
}

/// The mask of a cell of which nothing is known yet: every digit `1..=size`.
pub fn default_cell(size: usize) -> (r: u16)
    requires
        1 <= size <= 15,
    ensures
        r == full_mask(size as u16),
        r != 0,
        forall|d: u16| #[trigger] offers(r, d) == (1 <= d && d <= size),
{
    default_mask(size)
}

/// Width and height of the default boxes.
pub fn default_region_bounds(size: usize) -> (r: (usize, usize))
    requires
        size == 4 || size == 6 || size == 9,
    ensures
        r == region_bounds(size as int),
        r.0 * r.1 == size,
{
    if size == 4 {
        (2, 2)
    } else if size == 6 {
        (3, 2)
    } else {
        (3, 3)
    }
}

/// The default boxes: 2x2 on the 4x4 grid, 3 wide and 2 tall on the 6x6
/// grid, 3x3 on the 9x9 grid.
pub fn default_regions(size: usize) -> (r: Vec<Region>)
    requires
        size == 4 || size == 6 || size == 9,
    ensures
        regions_view(r) == boxes(
            region_bounds(size as int).0 as int,
            region_bounds(size as int).1 as int,
        ),
{
    let (width, height) = default_region_bounds(size);
    calc_region(width, height)
}

/// The boxes of the grid of side `width * height`, each `width` columns
/// wide and `height` rows tall.
pub fn calc_region(width: usize, height: usize) -> (r: Vec<Region>)
    requires
        1 <= width <= 15,
        1 <= height <= 15,
    ensures
        regions_view(r) == boxes(width as int, height as int),
{
    let offsets = calc_region_offsets(height, width);
    let mut out: Vec<Region> = Vec::new();
    let mut k: usize = 0;
    assert(offsets@.len() == width * height) by (nonlinear_arith)
        requires
            offsets@.len() == height * width,
    ;
    while k < offsets.len()
        invariant
            k <= offsets.len(),
            1 <= width <= 15,
            1 <= height <= 15,
            offsets@ == box_offsets(height as int, width as int),
            offsets@.len() == width * height,
            out.len() == k,
            forall|i: int|
                0 <= i < k ==> (#[trigger] out[i])@ == boxes(width as int, height as int)[i],
        decreases offsets.len() - k,
    {
        let (x, y) = offsets[k];
        proof {
            let kk = k as int;
            let w = width as int;
            let h = height as int;
            assert(0 <= kk / w < h && 0 <= kk % w < w && (kk / w) * w <= 225 && (kk % w) * h <= 225)
                by (nonlinear_arith)
                requires
                    0 <= kk < w * h,
                    1 <= w <= 15,
                    1 <= h <= 15,
            ;
        }
        let region = calc_region_contents(width, height, x, y);
        out.push(region);
        k += 1;
    }
    assert(regions_view(out) =~= boxes(width as int, height as int));
    out
}

/// The corners of `width` times `height` boxes that are `height` columns
/// wide and `width` rows tall.
pub fn calc_region_offsets(width: usize, height: usize) -> (r: Vec<(usize, usize)>)
    requires
        1 <= width <= 15,
        1 <= height <= 15,
    ensures
        r@ == box_offsets(width as int, height as int),
        r@.len() == width * height,
{
    let mut out: Vec<(usize, usize)> = Vec::new();
    let mut x: usize = 0;
    while x < width
        invariant
            x <= width,
            1 <= width <= 15,
            1 <= height <= 15,
            out.len() == x * height,
            forall|k: int|
                0 <= k < out.len() ==>
                    #[trigger] out[k] == box_offsets(width as int, height as int)[k],
        decreases width - x,
    {
        let mut y: usize = 0;
        while y < height
            invariant
                x < width,
                y <= height,
                1 <= width <= 15,
                1 <= height <= 15,
                out.len() == x * height + y,
                forall|k: int|
                    0 <= k < out.len() ==>
                        #[trigger] out[k] == box_offsets(width as int, height as int)[k],
            decreases height - y,
        {
            proof {
                lemma_fundamental_div_mod_converse(
                    x * height + y, height as int, x as int, y as int
                );
                assert(x * height + y < width * height && x * height <= 225 && y * width <= 225)
                    by (nonlinear_arith)
                    requires
                        x < width <= 15,
                        y < height <= 15,
                ;
            }
            out.push((x * height, y * width));
            y += 1;
        }
        assert((x + 1) * height == x * height + height) by (nonlinear_arith);
        x += 1;
    }
    assert(out@ =~= box_offsets(width as int, height as int));
    out
}

/// The cells of the box with the given corner.
pub fn calc_region_contents(width: usize, height: usize, offset_x: usize, offset_y: usize) -> (r:
    Vec<Cell>)
    requires
        1 <= width <= 15,
        1 <= height <= 15,
        offset_x <= 225,
        offset_y <= 225,
    ensures
        r@ == box_cells(width as int, height as int, offset_x as int, offset_y as int),
{
    let mut out: Vec<Cell> = Vec::new();
    let mut x: usize = 0;
    while x < width
        invariant
            x <= width,
            1 <= width <= 15,
            1 <= height <= 15,
            offset_x <= 225,
            offset_y <= 225,
            out.len() == x * height,
            forall|t: int|
                0 <= t < out.len() ==>
                    #[trigger] out[t] == box_cells(width as int, height as int, offset_x as int, offset_y as int)[t],
        decreases width - x,
    {
        let mut y: usize = 0;
        while y < height
            invariant
                x < width,
                y <= height,
                1 <= width <= 15,
                1 <= height <= 15,
                offset_x <= 225,
                offset_y <= 225,
                out.len() == x * height + y,
                forall|t: int|
                    0 <= t < out.len() ==>
                        #[trigger] out[t] == box_cells(width as int, height as int, offset_x as int, offset_y as int)[t],
            decreases height - y,
        {
            proof {
                lemma_fundamental_div_mod_converse(
                    x * height + y, height as int, x as int, y as int
                );
                assert(x * height + y < width * height) by (nonlinear_arith)
                    requires
                        x < width,
                        y < height,
                ;
            }
            out.push(Cell { col: x + offset_x, row: y + offset_y });
            y += 1;
        }
        assert((x + 1) * height == x * height + height) by (nonlinear_arith);
        x += 1;
    }
    assert(out@ =~= box_cells(width as int, height as int, offset_x as int, offset_y as int));
    out
}

} // verus!
