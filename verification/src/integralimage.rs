//! Summed-area tables: the sum of any axis-aligned block of an 8-bit raster
//! in constant time.

use vstd::prelude::*;
use crate::raster::{Grid, Image, lemma_filled_at, lemma_index_in_range, lemma_put_at};

verus! {

/// Sum of the samples of row `y` in the columns from `x0` up to, not
/// including, `x1`.
pub open spec fn span_sum(g: Grid<u8>, y: int, x0: int, x1: int) -> int
    decreases x1 - x0,
{
    if x1 <= x0 {
        0
    } else {
        span_sum(g, y, x0, x1 - 1) + g.at(x1 - 1, y) as int
    }
}

/// Sum of the samples in the columns from `x0` up to, not including, `x1`
/// of the rows from `y0` up to, not including, `y1`.
pub open spec fn block_sum(g: Grid<u8>, x0: int, y0: int, x1: int, y1: int) -> int
    decreases y1 - y0,
{
    if y1 <= y0 {
        0
    } else {
        block_sum(g, x0, y0, x1, y1 - 1) + span_sum(g, y1 - 1, x0, x1)
    }
}

/// A span is at most 255 times its length, and never negative.
pub proof fn lemma_span_bound(g: Grid<u8>, y: int, x0: int, x1: int)
    requires
        x0 <= x1,
    ensures
        0 <= span_sum(g, y, x0, x1) <= 255 * (x1 - x0),
    decreases x1 - x0,
{
    if x1 > x0 {
        lemma_span_bound(g, y, x0, x1 - 1);
    }
}

/// A block is at most 255 times its area, and never negative.
pub proof fn lemma_block_bound(g: Grid<u8>, x0: int, y0: int, x1: int, y1: int)
    requires
        x0 <= x1,
        y0 <= y1,
    ensures
        0 <= block_sum(g, x0, y0, x1, y1) <= 255 * ((x1 - x0) * (y1 - y0)),
    decreases y1 - y0,
{
    if y1 > y0 {
        lemma_block_bound(g, x0, y0, x1, y1 - 1);
        lemma_span_bound(g, y1 - 1, x0, x1);
        assert((x1 - x0) * (y1 - y0) == (x1 - x0) * (y1 - 1 - y0) + (x1 - x0)) by (nonlinear_arith);
    } else {
        assert((x1 - x0) * (y1 - y0) == 0) by (nonlinear_arith)
            requires
                y1 == y0,
        ;
    }
}

/// A span from the first column splits at any column.
pub proof fn lemma_span_split(g: Grid<u8>, y: int, x0: int, x1: int)
    requires
        0 <= x0 <= x1,
    ensures
        span_sum(g, y, 0, x1) == span_sum(g, y, 0, x0) + span_sum(g, y, x0, x1),
    decreases x1 - x0,
{
    if x1 > x0 {
        lemma_span_split(g, y, x0, x1 - 1);
    }
}

/// A block is the difference of four blocks anchored at the origin.
pub proof fn lemma_block_by_corners(g: Grid<u8>, x0: int, y0: int, x1: int, y1: int)
    requires
        0 <= x0 <= x1,
        0 <= y0 <= y1,
    ensures
        block_sum(g, x0, y0, x1, y1) == block_sum(g, 0, 0, x1, y1) - block_sum(g, 0, 0, x0, y1) - block_sum(
            g,
            0,
            0,
            x1,
            y0,
        ) + block_sum(g, 0, 0, x0, y0),
    decreases y1 - y0,
{
    if y1 > y0 {
        lemma_block_by_corners(g, x0, y0, x1, y1 - 1);
        lemma_span_split(g, y1 - 1, x0, x1);
    }
}

/// Growing a block with a wider or taller one never shrinks the sum.
pub proof fn lemma_block_grows(g: Grid<u8>, x1: int, y1: int, x2: int, y2: int)
    requires
        0 <= x1 <= x2,
        0 <= y1 <= y2,
    ensures
        block_sum(g, 0, 0, x1, y1) <= block_sum(g, 0, 0, x2, y2),
{
    lemma_block_by_corners(g, 0, y1, x2, y2);
    lemma_block_bound(g, 0, y1, x2, y2);
    lemma_block_by_corners(g, x1, 0, x2, y1);
    lemma_block_bound(g, x1, 0, x2, y1);
    lemma_block_bound(g, 0, 0, 0, y2);
    lemma_block_bound(g, 0, 0, 0, y1);
    lemma_block_bound(g, 0, 0, x2, 0);
    lemma_block_bound(g, 0, 0, x1, 0);
    lemma_block_bound(g, 0, 0, 0, 0);
}

/// `table` is the summed-area table of `g`: its sample at `(x, y)` is the
/// sum of the samples of `g` in columns `0..=x` of rows `0..=y`.
pub open spec fn is_integral_of(table: Grid<u64>, g: Grid<u8>) -> bool {
    &&& table.wf()
    &&& table.width == g.width
    &&& table.height == g.height
    &&& forall|x: int, y: int| table.in_bounds(x, y) ==> #[trigger] table.at(x, y) == block_sum(g, 0, 0, x + 1, y + 1)
}

/// Computes the 2d running sum of a grayscale image.
pub fn integral_image(image: &Image<u8>) -> (out: Image<u64>)
    requires
        image.wf(),
        255 * (image@.width * image@.height) <= u64::MAX,
    ensures
        out.wf(),
        is_integral_of(out@, image@),
{
    let width: u32 = image.width();
    let height: u32 = image.height();
    let mut out: Image<u64> = image.filled_like(0u64);
    let mut y: u32 = 0;
    while y < height
        invariant
            image.wf(),
            out.wf(),
            width == image@.width == out@.width,
            height == image@.height == out@.height,
            255 * (image@.width * image@.height) <= u64::MAX,
            y <= height,
            forall|u: int, v: int|
                out@.in_bounds(u, v) && v < y ==> #[trigger] out@.at(u, v) == block_sum(image@, 0, 0, u + 1, v + 1),
        decreases height - y,
    {
        let mut x: u32 = 0;
        let mut row: u64 = 0;
        while x < width
            invariant
                image.wf(),
                out.wf(),
                width == image@.width == out@.width,
                height == image@.height == out@.height,
                255 * (image@.width * image@.height) <= u64::MAX,
                y < height,
                x <= width,
                row == span_sum(image@, y as int, 0, x as int),
                forall|u: int, v: int|
                    out@.in_bounds(u, v) && (v < y || (v == y && u < x)) ==> #[trigger] out@.at(u, v) == block_sum(
                        image@,
                        0,
                        0,
                        u + 1,
                        v + 1,
                    ),
            decreases width - x,
        {
            let above: u64 = if y > 0 { out.get_pixel(x, y - 1) } else { 0 };
            proof {
                lemma_block_bound(image@, 0, 0, x + 1, y + 1);
                lemma_span_bound(image@, y as int, 0, x + 1);
                assert((x + 1) * (y + 1) <= image@.width * image@.height) by (nonlinear_arith)
                    requires
                        0 <= x < image@.width,
                        0 <= y < image@.height,
                ;
                assert(x + 1 <= (x + 1) * (y + 1)) by (nonlinear_arith)
                    requires
                        0 <= x,
                        0 <= y,
                ;
                assert(block_sum(image@, 0, 0, x + 1, 0) == 0);
            }
            row = row + image.get_pixel(x, y) as u64;
            let ghost prev = out@;
            out.put_pixel(x, y, above + row);
            proof {
                assert forall|u: int, v: int| out@.in_bounds(u, v) && (v < y || (v == y && u < x + 1)) implies #[trigger] out@.at(
                    u,
                    v,
                ) == block_sum(image@, 0, 0, u + 1, v + 1) by {
                    lemma_put_at(prev, x as int, y as int, (above + row) as u64, u, v);
                }
            }
            x = x + 1;
        }
        y = y + 1;
    }
    out
}

/// The table entry just left of and above `(x, y)`, zero where there is none.
pub open spec fn table_before(table: Grid<u64>, x: int, y: int) -> int {
    if x > 0 && y > 0 {
        table.at(x - 1, y - 1) as int
    } else {
        0
    }
}

/// What the table gives for the block with corners `(left, top)` and
/// `(right, bottom)`, both inclusive.
pub open spec fn table_block(table: Grid<u64>, left: int, top: int, right: int, bottom: int) -> int {
    table_before(table, right + 1, bottom + 1) - table_before(table, left, bottom + 1) - table_before(
        table,
        right + 1,
        top,
    ) + table_before(table, left, top)
}

/// On a summed-area table, the table's block is the sum of the block, and
/// the four entries that make it up are ordered.
pub proof fn lemma_table_block(table: Grid<u64>, g: Grid<u8>, left: int, top: int, right: int, bottom: int)
    requires
        is_integral_of(table, g),
        0 <= left <= right < table.width,
        0 <= top <= bottom < table.height,
    ensures
        table_block(table, left, top, right, bottom) == block_sum(g, left, top, right + 1, bottom + 1),
        table_before(table, left, bottom + 1) <= table_before(table, right + 1, bottom + 1),
        table_before(table, left, top) <= table_before(table, right + 1, top),
        table_before(table, right + 1, top) - table_before(table, left, top) <= table_before(table, right + 1, bottom + 1)
            - table_before(table, left, bottom + 1),
{
    lemma_block_by_corners(g, left, top, right + 1, bottom + 1);
    lemma_block_bound(g, left, top, right + 1, bottom + 1);
    lemma_block_grows(g, left, bottom + 1, right + 1, bottom + 1);
    lemma_block_grows(g, left, top, right + 1, top);
    lemma_block_bound(g, 0, 0, 0, bottom + 1);
    lemma_block_bound(g, 0, 0, 0, top);
    lemma_block_bound(g, 0, 0, right + 1, 0);
    lemma_block_bound(g, 0, 0, left, 0);
    assert(table.at(right, bottom) == block_sum(g, 0, 0, right + 1, bottom + 1));
    if left > 0 {
        assert(table.at(left - 1, bottom) == block_sum(g, 0, 0, left, bottom + 1));
    }
    if top > 0 {
        assert(table.at(right, top - 1) == block_sum(g, 0, 0, right + 1, top));
    }
    if left > 0 && top > 0 {
        assert(table.at(left - 1, top - 1) == block_sum(g, 0, 0, left, top));
    }
}

/// Sums the pixels in the block with corners `(left, top)` and
/// `(right, bottom)`, both inclusive, given the summed-area table of the
/// image.
pub fn sum_image_pixels(integral: &Image<u64>, left: u32, top: u32, right: u32, bottom: u32) -> (sum: u64)
    requires
        integral.wf(),
        exists|g: Grid<u8>| is_integral_of(integral@, g),
        left <= right < integral@.width,
        top <= bottom < integral@.height,
    ensures
        sum == table_block(integral@, left as int, top as int, right as int, bottom as int),
{
    proof {
        let g = choose|g: Grid<u8>| is_integral_of(integral@, g);
        lemma_table_block(integral@, g, left as int, top as int, right as int, bottom as int);
    }
    let whole: u64 = integral.get_pixel(right, bottom);
    let west: u64 = if left > 0 { integral.get_pixel(left - 1, bottom) } else { 0 };
    let north: u64 = if top > 0 { integral.get_pixel(right, top - 1) } else { 0 };
    let corner: u64 = if left > 0 && top > 0 { integral.get_pixel(left - 1, top - 1) } else { 0 };
    (whole - west) - (north - corner)
}

} // verus!
