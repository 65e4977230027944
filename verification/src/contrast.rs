//! Functions for manipulating the contrast of 8-bit rasters.

use vstd::prelude::*;
use crate::integralimage::{block_sum, integral_image, is_integral_of, lemma_table_block, sum_image_pixels};
use crate::raster::{count, lemma_put_at, Grid, Image};

verus! {

/// Number of samples of `s` that are at most `value`.
pub open spec fn count_at_most(s: Seq<u8>, value: u8) -> nat
    decreases s.len(),
{
    if s.len() == 0 {
        0
    } else {
        count_at_most(s.drop_last(), value) + if s.last() <= value {
            1nat
        } else {
            0nat
        }
    }
}

/// No value occurs more often than there are samples.
pub proof fn lemma_count_bound(s: Seq<u8>, value: u8)
    ensures
        count(s, value) <= s.len(),
        count_at_most(s, value) <= s.len(),
    decreases s.len(),
{
    if s.len() > 0 {
        lemma_count_bound(s.drop_last(), value);
    }
}

/// The samples of at most `value` are those equal to `value` and, for a
/// positive `value`, those of at most `value - 1`.
pub proof fn lemma_count_at_most_step(s: Seq<u8>, value: u8)
    ensures
        count_at_most(s, value) == count(s, value) + if value > 0 {
            count_at_most(s, (value - 1) as u8)
        } else {
            0
        },
    decreases s.len(),
{
    if s.len() > 0 {
        lemma_count_at_most_step(s.drop_last(), value);
    }
}

/// The binarized sample: background up to the threshold, foreground above.
pub open spec fn binarized(sample: u8, thresh: u8) -> u8 {
    if sample <= thresh {
        0u8
    } else {
        255u8
    }
}

/// Returns the histogram of grayscale values in an 8bpp
/// grayscale image.
pub fn histogram(image: &Image<u8>) -> (hist: [u32; 256])
    requires
        image.wf(),
        image@.samples.len() <= u32::MAX,
    ensures
        forall|v: int| 0 <= v < 256 ==> #[trigger] hist@[v] == count(image@.samples, v as u8),
{
    let mut hist: [u32; 256] = [0u32; 256];
    let n: usize = image.len();
    let mut i: usize = 0;
    while i < n
        invariant
            image.wf(),
            n == image@.samples.len(),
            n <= u32::MAX,
            i <= n,
            forall|v: int| 0 <= v < 256 ==> #[trigger] hist@[v] == count(image@.samples.take(i as int), v as u8),
        decreases n - i,
    {
        let pix: u8 = image.get(i);
        let ghost grown = image@.samples.take(i + 1);
        proof {
            assert(grown.drop_last() =~= image@.samples.take(i as int));
            assert(grown.last() == pix);
            lemma_count_bound(grown, pix);
        }
        let slot: usize = pix as usize;
        let seen: u32 = hist[slot];
        hist[slot] = seen + 1;
        i = i + 1;
    }
    proof {
        assert(image@.samples.take(n as int) =~= image@.samples);
    }
    hist
}

/// Returns the cumulative histogram of grayscale values in an 8bpp
/// grayscale image.
pub fn cumulative_histogram(image: &Image<u8>) -> (hist: [u32; 256])
    requires
        image.wf(),
        image@.samples.len() <= u32::MAX,
    ensures
        forall|v: int| 0 <= v < 256 ==> #[trigger] hist@[v] == count_at_most(image@.samples, v as u8),
{
    let mut hist: [u32; 256] = histogram(image);
    let ghost plain = hist@;
    proof {
        lemma_count_at_most_step(image@.samples, 0u8);
    }
    let mut i: usize = 1;
    while i < 256
        invariant
            1 <= i <= 256,
            image@.samples.len() <= u32::MAX,
            forall|v: int| 0 <= v < 256 ==> #[trigger] plain[v] == count(image@.samples, v as u8),
            forall|v: int| 0 <= v < i ==> #[trigger] hist@[v] == count_at_most(image@.samples, v as u8),
            forall|v: int| i <= v < 256 ==> #[trigger] hist@[v] == plain[v],
        decreases 256 - i,
    {
        proof {
            lemma_count_at_most_step(image@.samples, i as u8);
            lemma_count_bound(image@.samples, i as u8);
        }
        let below: u32 = hist[i - 1];
        let here: u32 = hist[i];
        hist[i] = here + below;
        i = i + 1;
    }
    hist
}

/// Mutates given image to form a binarized version produced by applying
/// the given threshold. Pixels with intensity
/// equal to the threshold are assigned to the background.
pub fn threshold_mut(image: &mut Image<u8>, thresh: u8)
    requires
        old(image).wf(),
    ensures
        final(image).wf(),
        final(image)@.width == old(image)@.width,
        final(image)@.height == old(image)@.height,
        final(image)@.samples.len() == old(image)@.samples.len(),
        forall|i: int|
            0 <= i < old(image)@.samples.len() ==> #[trigger] final(image)@.samples[i] == binarized(
                old(image)@.samples[i],
                thresh,
            ),
{
    let n: usize = image.len();
    let mut i: usize = 0;
    while i < n
        invariant
            image.wf(),
            image@.width == old(image)@.width,
            image@.height == old(image)@.height,
            n == image@.samples.len() == old(image)@.samples.len(),
            i <= n,
            forall|k: int| 0 <= k < i ==> #[trigger] image@.samples[k] == binarized(old(image)@.samples[k], thresh),
            forall|k: int| i <= k < n ==> #[trigger] image@.samples[k] == old(image)@.samples[k],
        decreases n - i,
    {
        let p: u8 = image.get(i);
        image.set(i, if p <= thresh { 0u8 } else { 255u8 });
        i = i + 1;
    }
}

/// Returns a binarized image from an input 8bpp grayscale image
/// obtained by applying the given threshold. Pixels with intensity
/// equal to the threshold are assigned to the background.
pub fn threshold(image: &Image<u8>, thresh: u8) -> (out: Image<u8>)
    requires
        image.wf(),
    ensures
        out.wf(),
        out@.width == image@.width,
        out@.height == image@.height,
        out@.samples.len() == image@.samples.len(),
        forall|i: int|
            0 <= i < image@.samples.len() ==> #[trigger] out@.samples[i] == binarized(image@.samples[i], thresh),
{
    let mut out = image.duplicate();
    threshold_mut(&mut out, thresh);
    out
}

/// The first coordinate of the block of the given radius around `c`, clipped
/// to the raster.
pub open spec fn block_low(c: int, radius: int) -> int {
    if c - radius < 0 {
        0
    } else {
        c - radius
    }
}

/// The last coordinate of the block of the given radius around `c`, clipped
/// to a raster of the given extent.
pub open spec fn block_high(c: int, radius: int, extent: int) -> int {
    if c + radius > extent - 1 {
        extent - 1
    } else {
        c + radius
    }
}

/// The mean, rounded down, of the samples in the square block of side
/// `2 * radius + 1` centred on `(x, y)`, clipped to the raster.
pub open spec fn block_mean(g: Grid<u8>, x: int, y: int, radius: int) -> int {
    let x0 = block_low(x, radius);
    let x1 = block_high(x, radius, g.width as int);
    let y0 = block_low(y, radius);
    let y1 = block_high(y, radius, g.height as int);
    block_sum(g, x0, y0, x1 + 1, y1 + 1) / ((y1 - y0 + 1) * (x1 - x0 + 1))
}

/// The sample of the adaptive threshold at `(x, y)`: foreground where the
/// pixel is at least as bright as the mean of its block.
pub open spec fn adaptive_at(g: Grid<u8>, x: int, y: int, radius: int) -> u8 {
    if g.at(x, y) as int >= block_mean(g, x, y, radius) {
        255u8
    } else {
        0u8
    }
}

/// Applies an adaptive threshold to an image.
///
/// This algorithm compares each pixel's brightness with the average brightness of the pixels
/// in the (2 * `block_radius` + 1) square block centered on it. If the pixel if at least as bright
/// as the threshold then it will have a value of 255 in the output image, otherwise 0.
pub fn adaptive_threshold(image: &Image<u8>, block_radius: u32) -> (out: Image<u8>)
    requires
        image.wf(),
        block_radius > 0,
        255 * (image@.width * image@.height) <= u64::MAX,
    ensures
        out.wf(),
        out@.width == image@.width,
        out@.height == image@.height,
        forall|x: int, y: int|
            out@.in_bounds(x, y) ==> #[trigger] out@.at(x, y) == adaptive_at(image@, x, y, block_radius as int),
{
    let width: u32 = image.width();
    let height: u32 = image.height();
    let integral = integral_image(image);
    let mut out: Image<u8> = image.filled_like(0u8);
    let mut y: u32 = 0;
    while y < height
        invariant
            image.wf(),
            integral.wf(),
            out.wf(),
            is_integral_of(integral@, image@),
            width == image@.width == out@.width,
            height == image@.height == out@.height,
            y <= height,
            forall|u: int, v: int|
                out@.in_bounds(u, v) && v < y ==> #[trigger] out@.at(u, v) == adaptive_at(
                    image@,
                    u,
                    v,
                    block_radius as int,
                ),
        decreases height - y,
    {
        let mut x: u32 = 0;
        while x < width
            invariant
                image.wf(),
                integral.wf(),
                out.wf(),
                is_integral_of(integral@, image@),
                width == image@.width == out@.width,
                height == image@.height == out@.height,
                y < height,
                x <= width,
                forall|u: int, v: int|
                    out@.in_bounds(u, v) && (v < y || (v == y && u < x)) ==> #[trigger] out@.at(u, v) == adaptive_at(
                        image@,
                        u,
                        v,
                        block_radius as int,
                    ),
            decreases width - x,
        {
            let y_low: u32 = if y < block_radius { 0 } else { y - block_radius };
            let y_high: u32 = if block_radius > height - 1 - y { height - 1 } else { y + block_radius };
            let x_low: u32 = if x < block_radius { 0 } else { x - block_radius };
            let x_high: u32 = if block_radius > width - 1 - x { width - 1 } else { x + block_radius };
            proof {
                lemma_table_block(integral@, image@, x_low as int, y_low as int, x_high as int, y_high as int);
                assert(0 < (y_high - y_low + 1) * (x_high - x_low + 1) <= 0xffff_ffff * 0xffff_ffff) by (nonlinear_arith)
                    requires
                        0 <= y_high - y_low < 0xffff_ffff,
                        0 <= x_high - x_low < 0xffff_ffff,
                ;
            }
            let w: u64 = ((y_high - y_low) as u64 + 1) * ((x_high - x_low) as u64 + 1);
            let mean: u64 = sum_image_pixels(&integral, x_low, y_low, x_high, y_high) / w;
            let current: u8 = image.get_pixel(x, y);
            let value: u8 = if current as u64 >= mean { 255u8 } else { 0u8 };
            let ghost prev = out@;
            out.put_pixel(x, y, value);
            proof {
                assert(value == adaptive_at(image@, x as int, y as int, block_radius as int));
                assert forall|u: int, v: int| out@.in_bounds(u, v) && (v < y || (v == y && u < x + 1)) implies #[trigger] out@.at(
                    u,
                    v,
                ) == adaptive_at(image@, u, v, block_radius as int) by {
                    lemma_put_at(prev, x as int, y as int, value, u, v);
                }
            }
            x = x + 1;
        }
        y = y + 1;
    }
    out
}

} // verus!
