//! Canny-style edge tracing: non-maximum suppression of a gradient magnitude
//! raster followed by double-threshold hysteresis, in an eager form that
//! returns a binary raster and a lazy form that hands out edge pixels one at
//! a time.
//!
//! Magnitudes are held as `u32` levels. Any encoding that preserves the order
//! of the magnitudes may be used; only comparisons are ever made on them.

use vstd::prelude::*;
use crate::hysteresis::{
    edge_map, flood_from, hysteresis, is_edge, is_link, is_seed, is_trace, lemma_blank_stable, lemma_complete,
    lemma_edge_map_at, lemma_edge_strength, lemma_listed, lemma_stable_binary, lemma_traversal_lists_edges, lists, marked,
    scanned_before, stable,
};
use crate::traversal::{lemma_scan_end, lemma_scan_step, scan_rest, traversal, BACKGROUND, FOREGROUND};
use crate::raster::{
    count, lemma_count_monotone, lemma_filled_at, lemma_grid_ext, lemma_index_in_range, lemma_put_at, lemma_tabulate_at, Grid,
    Image,
};

verus! {

/// Gradient orientation, folded into the half circle and rounded to the
/// nearest multiple of 45 degrees.
#[derive(Copy, Clone, Debug, PartialEq, Eq, Structural)]
pub enum Direction {
    /// Within 22.5 degrees of the horizontal axis.
    Deg0,
    /// Around 45 degrees.
    Deg45,
    /// Around 90 degrees.
    Deg90,
    /// Around 135 degrees.
    Deg135,
}

/// The level of 22.5 degrees: the bit pattern of the single-precision value.
pub const LEVEL_22_5: u32 = 0x41B4_0000;

/// The level of 67.5 degrees.
pub const LEVEL_67_5: u32 = 0x4287_0000;

/// The level of 112.5 degrees.
pub const LEVEL_112_5: u32 = 0x42E1_0000;

/// The level of 157.5 degrees.
pub const LEVEL_157_5: u32 = 0x431D_8000;

/// The orientation class of an angle in degrees, folded into the half
/// circle and given as its level: from 157.5 on or below 22.5 it is 0
/// degrees, below 67.5 it is 45, below 112.5 it is 90, and below 157.5 it is
/// 135.
pub open spec fn direction_of_level(angle: u32) -> Direction {
    if angle >= LEVEL_157_5 || angle < LEVEL_22_5 {
        Direction::Deg0
    } else if angle < LEVEL_67_5 {
        Direction::Deg45
    } else if angle < LEVEL_112_5 {
        Direction::Deg90
    } else {
        Direction::Deg135
    }
}

impl Direction {
    /// Round an angle to its orientation class. The angle is in degrees,
    /// not negative, and given as the bit pattern of its single-precision
    /// value, which orders as the value does.
    pub fn from_angle_level(angle: u32) -> (d: Direction)
        ensures
            d == direction_of_level(angle),
    {
        if angle >= LEVEL_157_5 || angle < LEVEL_22_5 {
            Direction::Deg0
        } else if angle >= LEVEL_22_5 && angle < LEVEL_67_5 {
            Direction::Deg45
        } else if angle >= LEVEL_67_5 && angle < LEVEL_112_5 {
            Direction::Deg90
        } else {
            Direction::Deg135
        }
    }
}

/// The two pixels against which `(x, y)` is compared for a given orientation.
pub open spec fn comparison_neighbors(d: Direction, x: int, y: int) -> ((int, int), (int, int)) {
    match d {
        Direction::Deg0 => ((x - 1, y), (x + 1, y)),
        Direction::Deg45 => ((x + 1, y + 1), (x - 1, y - 1)),
        Direction::Deg90 => ((x, y - 1), (x, y + 1)),
        Direction::Deg135 => ((x - 1, y + 1), (x + 1, y - 1)),
    }
}

/// The thinned magnitude at `(x, y)`: zero on the outer ring, and zero for an
/// interior pixel that is strictly weaker than one of its two comparison
/// neighbours; otherwise the magnitude itself.
pub open spec fn suppressed_at(g: Grid<u32>, d: Grid<Direction>, x: int, y: int) -> u32 {
    if g.is_interior(x, y) {
        let (a, b) = comparison_neighbors(d.at(x, y), x, y);
        if g.at(x, y) < g.at(a.0, a.1) || g.at(x, y) < g.at(b.0, b.1) {
            0u32
        } else {
            g.at(x, y)
        }
    } else {
        0u32
    }
}

/// The thinned magnitude grid.
pub open spec fn suppress(g: Grid<u32>, d: Grid<Direction>) -> Grid<u32> {
    Grid::tabulate(g.width, g.height, |x: int, y: int| suppressed_at(g, d, x, y))
}

/// Reading the thinned grid gives the thinned magnitude.
pub proof fn lemma_suppress_at(g: Grid<u32>, d: Grid<Direction>, x: int, y: int)
    requires
        g.in_bounds(x, y),
    ensures
        suppress(g, d).at(x, y) == suppressed_at(g, d, x, y),
        suppress(g, d).wf(),
        suppress(g, d).width == g.width,
        suppress(g, d).height == g.height,
{
    lemma_tabulate_at(g.width, g.height, |x: int, y: int| suppressed_at(g, d, x, y), x, y);
}

/// Finds local maxima along the gradient direction to make the edges thinner.
pub fn non_maximum_suppression(g: &Image<u32>, d: &Image<Direction>) -> (out: Image<u32>)
    requires
        g.wf(),
        d.wf(),
        g@.width == d@.width,
        g@.height == d@.height,
    ensures
        out.wf(),
        out@ == suppress(g@, d@),
{
    let width: u32 = g.width();
    let height: u32 = g.height();
    let mut out: Image<u32> = g.filled_like(0u32);
    proof {
        assert forall|u: int, v: int| out@.in_bounds(u, v) implies #[trigger] out@.at(u, v) == 0u32 by {
            lemma_filled_at(g@.width, g@.height, 0u32, u, v);
        }
    }
    if width >= 3 && height >= 3 {
        let mut y: u32 = 1;
        while y < height - 1
            invariant
                g.wf(),
                d.wf(),
                out.wf(),
                width == g@.width == d@.width == out@.width,
                height == g@.height == d@.height == out@.height,
                width >= 3,
                height >= 3,
                1 <= y <= height - 1,
                forall|u: int, v: int|
                    out@.in_bounds(u, v) ==> #[trigger] out@.at(u, v) == if scanned_before(u, v, 1, y as int) {
                        suppressed_at(g@, d@, u, v)
                    } else {
                        0u32
                    },
            decreases height - y,
        {
            let mut x: u32 = 1;
            while x < width - 1
                invariant
                    g.wf(),
                    d.wf(),
                    out.wf(),
                    width == g@.width == d@.width == out@.width,
                    height == g@.height == d@.height == out@.height,
                    width >= 3,
                    height >= 3,
                    1 <= y < height - 1,
                    1 <= x <= width - 1,
                    forall|u: int, v: int|
                        out@.in_bounds(u, v) ==> #[trigger] out@.at(u, v) == if scanned_before(u, v, x as int, y as int)
                            && g@.is_interior(u, v) {
                            suppressed_at(g@, d@, u, v)
                        } else {
                            0u32
                        },
                decreases width - x,
            {
                let (first, second): (u32, u32) = match d.get_pixel(x, y) {
                    Direction::Deg0 => (g.get_pixel(x - 1, y), g.get_pixel(x + 1, y)),
                    Direction::Deg45 => (g.get_pixel(x + 1, y + 1), g.get_pixel(x - 1, y - 1)),
                    Direction::Deg90 => (g.get_pixel(x, y - 1), g.get_pixel(x, y + 1)),
                    Direction::Deg135 => (g.get_pixel(x - 1, y + 1), g.get_pixel(x + 1, y - 1)),
                };
                let pixel: u32 = g.get_pixel(x, y);
                let kept: u32 = if pixel < first || pixel < second { 0u32 } else { pixel };
                let ghost prev = out@;
                out.put_pixel(x, y, kept);
                proof {
                    assert(kept == suppressed_at(g@, d@, x as int, y as int));
                    assert forall|u: int, v: int| out@.in_bounds(u, v) implies #[trigger] out@.at(u, v) == if scanned_before(
                        u,
                        v,
                        x + 1,
                        y as int,
                    ) && g@.is_interior(u, v) {
                        suppressed_at(g@, d@, u, v)
                    } else {
                        0u32
                    } by {
                        lemma_put_at(prev, x as int, y as int, kept, u, v);
                    }
                }
                x = x + 1;
            }
            y = y + 1;
        }
    }
    proof {
        assert forall|u: int, v: int| out@.in_bounds(u, v) implies #[trigger] out@.at(u, v) == suppress(g@, d@).at(
            u,
            v,
        ) by {
            lemma_suppress_at(g@, d@, u, v);
        }
        if out@.width > 0 && out@.height > 0 {
            lemma_suppress_at(g@, d@, 0, 0);
        } else {
            assert(suppress(g@, d@).samples.len() == g@.width * g@.height);
        }
        lemma_grid_ext(out@, suppress(g@, d@));
    }
    out
}

/// Runs the edge detector on a gradient magnitude raster and the raster of
/// its gradient orientations: thins the magnitudes, then keeps the pixels
/// that a trace reaches.
///
/// Returns a binary raster in which edge pixels are foreground and all other
/// pixels are background.
pub fn canny(magnitude: &Image<u32>, directions: &Image<Direction>, low_threshold: u32, high_threshold: u32) -> (out:
    Image<u8>)
    requires
        magnitude.wf(),
        directions.wf(),
        magnitude@.width == directions@.width,
        magnitude@.height == directions@.height,
        low_threshold <= high_threshold,
    ensures
        out.wf(),
        out@ == edge_map(suppress(magnitude@, directions@), low_threshold, high_threshold),
{
    let thinned = non_maximum_suppression(magnitude, directions);
    hysteresis(&thinned, low_threshold, high_threshold)
}

/// A resumable producer of the edge pixels of a raster. Each request hands
/// out the next edge pixel in the order of discovery, until none is left.
pub struct CannyPixels {
    image: Image<u32>,
    low_threshold: u32,
    high_threshold: u32,
    x: u32,
    y: u32,
    working_image: Image<u8>,
    pixels: Vec<(u32, u32)>,
    taken: usize,
    yielded: Ghost<Seq<(u32, u32)>>,
}

impl CannyPixels {
    /// The thinned magnitude grid that is traced.
    pub closed spec fn thinned(&self) -> Grid<u32> {
        self.image@
    }

    /// The low threshold.
    pub closed spec fn low(&self) -> u32 {
        self.low_threshold
    }

    /// The high threshold.
    pub closed spec fn high(&self) -> u32 {
        self.high_threshold
    }

    /// The pixels handed out so far, in the order of the requests.
    pub closed spec fn produced(&self) -> Seq<(u32, u32)> {
        self.yielded@
    }

    /// The order in which the producer hands out the edge pixels: the order
    /// in which hysteresis discovers them.
    pub open spec fn order(&self) -> Seq<(u32, u32)> {
        traversal(self.thinned(), self.low(), self.high())
    }

    /// The pixels handed out so far followed by those found and not yet
    /// handed out.
    pub closed spec fn known(&self) -> Seq<(u32, u32)> {
        self.yielded@ + self.pixels@.skip(self.taken as int)
    }

    /// The scan of the interior has passed its last pixel.
    pub closed spec fn scan_done(&self) -> bool {
        self.image@.width < 3 || self.image@.height < 3 || self.y >= self.image@.height - 1
    }

    /// Nothing is left to hand out.
    pub closed spec fn is_exhausted(&self) -> bool {
        self.taken == self.pixels@.len() && self.scan_done()
    }

    /// The invariant of the producer.
    pub closed spec fn wf(&self) -> bool {
        &&& self.image.wf()
        &&& self.working_image.wf()
        &&& self.image@.width == self.working_image@.width
        &&& self.image@.height == self.working_image@.height
        &&& stable(self.image@, self.low_threshold, self.high_threshold, self.working_image@)
        &&& self.image@.width >= 3 && self.image@.height >= 3 ==> self.x <= self.image@.width - 1 && self.y
            <= self.image@.height - 1
        &&& self.x >= 1
        &&& self.y >= 1
        &&& forall|u: int, v: int| #[trigger]
            is_seed(self.image@, self.high_threshold, u, v) && scanned_before(u, v, self.x as int, self.y as int)
                ==> marked(self.working_image@, u, v)
        &&& self.taken <= self.pixels@.len()
        &&& lists(self.working_image@, self.known())
        &&& self.known() + scan_rest(
            self.image@,
            self.low_threshold,
            self.high_threshold,
            self.working_image@,
            self.x as int,
            self.y as int,
        ) == traversal(self.image@, self.low_threshold, self.high_threshold)
    }

    /// Create a producer of the edge pixels of a gradient magnitude raster
    /// with the given orientations and thresholds.
    pub fn new(magnitude: &Image<u32>, directions: &Image<Direction>, low_threshold: u32, high_threshold: u32) -> (s:
        CannyPixels)
        requires
            magnitude.wf(),
            directions.wf(),
            magnitude@.width == directions@.width,
            magnitude@.height == directions@.height,
            low_threshold <= high_threshold,
        ensures
            s.wf(),
            s.thinned() == suppress(magnitude@, directions@),
            s.low() == low_threshold,
            s.high() == high_threshold,
            s.produced() == Seq::<(u32, u32)>::empty(),
    {
        let thinned = non_maximum_suppression(magnitude, directions);
        let working_image: Image<u8> = thinned.filled_like(BACKGROUND);
        proof {
            thinned.lemma_dimensions();
            lemma_blank_stable(thinned@, low_threshold, high_threshold);
        }
        let s = CannyPixels {
            image: thinned,
            low_threshold,
            high_threshold,
            x: 1,
            y: 1,
            working_image,
            pixels: Vec::new(),
            taken: 0,
            yielded: Ghost(Seq::empty()),
        };
        proof {
            assert(s.known() =~= Seq::empty());
            assert(s.known() + traversal(s.image@, low_threshold, high_threshold) =~= traversal(
                s.image@,
                low_threshold,
                high_threshold,
            ));
        }
        s
    }

    /// Hand out the next edge pixel in the order of discovery, or `None`
    /// once every edge pixel has been handed out.
    pub fn next(&mut self) -> (r: Option<(u32, u32)>)
        requires
            old(self).wf(),
        ensures
            final(self).wf(),
            final(self).thinned() == old(self).thinned(),
            final(self).low() == old(self).low(),
            final(self).high() == old(self).high(),
            old(self).produced() == old(self).order().take(old(self).produced().len() as int),
            old(self).produced().len() <= old(self).order().len(),
            r == if old(self).produced().len() < old(self).order().len() {
                Some(old(self).order()[old(self).produced().len() as int])
            } else {
                None
            },
            match r {
                Some(p) => {
                    &&& final(self).produced() == old(self).produced().push(p)
                    &&& !old(self).produced().contains(p)
                    &&& is_edge(old(self).thinned(), old(self).low(), old(self).high(), p.0 as int, p.1 as int)
                },
                None => {
                    &&& final(self).produced() == old(self).produced()
                    &&& final(self).is_exhausted()
                    &&& forall|x: int, y: int| #[trigger]
                        is_edge(old(self).thinned(), old(self).low(), old(self).high(), x, y) ==> old(
                            self,
                        ).produced().contains((x as u32, y as u32))
                },
            },
    {
        proof {
            self.lemma_prefix();
        }
        if self.taken < self.pixels.len() {
            let r = self.take_found();
            return Some(r);
        }
        if self.scan() {
            let r = self.take_found();
            Some(r)
        } else {
            None
        }
    }

    /// Advance the scan of the interior to the next unmarked seed and mark
    /// what propagation reaches from it; `false` when the scan ends without
    /// meeting one.
    fn scan(&mut self) -> (hit: bool)
        requires
            old(self).wf(),
            old(self).taken == old(self).pixels@.len(),
        ensures
            final(self).wf(),
            final(self).image == old(self).image,
            final(self).low_threshold == old(self).low_threshold,
            final(self).high_threshold == old(self).high_threshold,
            final(self).yielded@ == old(self).yielded@,
            hit ==> final(self).taken < final(self).pixels@.len(),
            !hit ==> final(self).is_exhausted() && old(self).yielded@ == traversal(
                old(self).image@,
                old(self).low_threshold,
                old(self).high_threshold,
            ) && forall|x: int, y: int| #[trigger]
                is_edge(old(self).image@, old(self).low_threshold, old(self).high_threshold, x, y) ==> old(
                    self,
                ).yielded@.contains((x as u32, y as u32)),
    {
        let width: u32 = self.image.width();
        let height: u32 = self.image.height();
        proof {
            assert(self.pixels@.skip(self.taken as int) =~= Seq::empty());
            assert(self.known() =~= self.yielded@);
        }
        self.pixels.clear();
        self.taken = 0;
        proof {
            assert(self.pixels@.skip(0) =~= Seq::empty());
            assert(self.known() =~= self.yielded@);
        }
        if width >= 3 && height >= 3 {
            while self.y < height - 1
                invariant
                    self.wf(),
                    self.image == old(self).image,
                    self.low_threshold == old(self).low_threshold,
                    self.high_threshold == old(self).high_threshold,
                    self.yielded@ == old(self).yielded@,
                    self.pixels@.len() == 0,
                    self.taken == 0,
                    width == self.image@.width,
                    height == self.image@.height,
                    width >= 3,
                    height >= 3,
                decreases height - self.y, width - self.x,
            {
                let x: u32 = self.x;
                let y: u32 = self.y;
                proof {
                    assert(self.pixels@.skip(0) =~= Seq::empty());
                    assert(self.known() =~= self.yielded@);
                    lemma_scan_step(
                        self.image@,
                        self.low_threshold,
                        self.high_threshold,
                        self.working_image@,
                        x as int,
                        y as int,
                    );
                }
                if x >= width - 1 {
                    self.x = 1;
                    self.y = y + 1;
                } else {
                    let strength: u32 = self.image.get_pixel(x, y);
                    let state: u8 = self.working_image.get_pixel(x, y);
                    proof {
                        lemma_stable_binary(self.image@, self.low_threshold, self.high_threshold, self.working_image@);
                        assert(state == FOREGROUND || state == BACKGROUND);
                    }
                    self.x = x + 1;
                    if strength >= self.high_threshold && state == BACKGROUND {
                        let ghost given = self.yielded@;
                        flood_from(
                            &self.image,
                            self.low_threshold,
                            self.high_threshold,
                            &mut self.working_image,
                            &mut self.pixels,
                            x,
                            y,
                            Ghost(given),
                        );
                        proof {
                            assert(self.pixels@.skip(0) =~= self.pixels@);
                            let rest = scan_rest(
                                self.image@,
                                self.low_threshold,
                                self.high_threshold,
                                self.working_image@,
                                x + 1,
                                y as int,
                            );
                            assert((given + self.pixels@) + rest =~= given + (self.pixels@ + rest));
                        }
                        return true;
                    }
                }
            }
        }
        proof {
            assert(self.pixels@.skip(0) =~= Seq::empty());
            assert(self.known() =~= self.yielded@);
            lemma_scan_end(
                self.image@,
                self.low_threshold,
                self.high_threshold,
                self.working_image@,
                self.x as int,
                self.y as int,
            );
            assert(self.yielded@ + Seq::<(u32, u32)>::empty() =~= self.yielded@);
            lemma_complete(
                self.image@,
                self.low_threshold,
                self.high_threshold,
                self.working_image@,
                self.yielded@,
            );
        }
        false
    }

    /// Hand out the first pixel that was found and not yet handed out.
    fn take_found(&mut self) -> (p: (u32, u32))
        requires
            old(self).wf(),
            old(self).taken < old(self).pixels@.len(),
        ensures
            final(self).wf(),
            final(self).image == old(self).image,
            final(self).low_threshold == old(self).low_threshold,
            final(self).high_threshold == old(self).high_threshold,
            final(self).yielded@ == old(self).yielded@.push(p),
            old(self).yielded@.len() < traversal(old(self).image@, old(self).low_threshold, old(self).high_threshold).len(),
            p == traversal(old(self).image@, old(self).low_threshold, old(self).high_threshold)[old(
                self,
            ).yielded@.len() as int],
            !old(self).yielded@.contains(p),
            is_edge(old(self).image@, old(self).low_threshold, old(self).high_threshold, p.0 as int, p.1 as int),
    {
        let ghost before = self.known();
        let ghost given = self.yielded@;
        let available: usize = self.pixels.len();
        let p = self.pixels[self.taken];
        self.taken = self.taken + 1;
        self.yielded = Ghost(self.yielded@.push(p));
        proof {
            let n = given.len() as int;
            assert(self.known() =~= before);
            assert(before[n] == p);
            lemma_listed(self.image@, self.low_threshold, self.high_threshold, self.working_image@, before);
            if given.contains(p) {
                let i = choose|i: int| 0 <= i < given.len() && given[i] == p;
                assert(before[i] == p);
            }
            let rest = scan_rest(
                self.image@,
                self.low_threshold,
                self.high_threshold,
                self.working_image@,
                self.x as int,
                self.y as int,
            );
            assert((before + rest)[n] == p);
        }
        p
    }

    /// The pixels handed out so far are the start of the order.
    proof fn lemma_prefix(self)
        requires
            self.wf(),
        ensures
            self.produced().len() <= self.order().len(),
            self.produced() == self.order().take(self.produced().len() as int),
    {
        let rest = scan_rest(
            self.image@,
            self.low_threshold,
            self.high_threshold,
            self.working_image@,
            self.x as int,
            self.y as int,
        );
        let all = self.known() + rest;
        assert(self.yielded@ =~= all.take(self.yielded@.len() as int));
    }
}

/// A pixel on the outer one-pixel ring whose magnitude is below the low
/// threshold is background in the result of hysteresis.
pub proof fn lemma_weak_border_is_background(t: Grid<u32>, low: u32, high: u32, x: int, y: int)
    requires
        t.in_bounds(x, y),
        !t.is_interior(x, y),
        t.at(x, y) < low,
    ensures
        edge_map(t, low, high).at(x, y) == BACKGROUND,
{
    lemma_edge_map_at(t, low, high, x, y);
    if is_edge(t, low, high, x, y) {
        lemma_edge_strength(t, low, high, x, y);
    }
}

/// With a positive low threshold, every pixel on the outer one-pixel ring of
/// the detector's output is background.
pub proof fn lemma_border_is_background(g: Grid<u32>, d: Grid<Direction>, low: u32, high: u32, x: int, y: int)
    requires
        low > 0,
        g.in_bounds(x, y),
        !g.is_interior(x, y),
    ensures
        edge_map(suppress(g, d), low, high).at(x, y) == BACKGROUND,
{
    lemma_suppress_at(g, d, x, y);
    lemma_weak_border_is_background(suppress(g, d), low, high, x, y);
}

/// Raising either threshold never adds an edge: every edge under the
/// tighter pair is an edge under the looser pair, and the output has at most
/// as many foreground pixels.
pub proof fn lemma_tightening(t: Grid<u32>, low1: u32, high1: u32, low2: u32, high2: u32)
    requires
        low1 <= low2,
        high1 <= high2,
    ensures
        forall|x: int, y: int| is_edge(t, low2, high2, x, y) ==> #[trigger] is_edge(t, low1, high1, x, y),
        count(edge_map(t, low2, high2).samples, FOREGROUND) <= count(edge_map(t, low1, high1).samples, FOREGROUND),
{
    assert forall|x: int, y: int| is_edge(t, low2, high2, x, y) implies #[trigger] is_edge(t, low1, high1, x, y) by {
        let path = choose|path: Seq<(int, int)>| is_trace(t, low2, high2, path) && #[trigger] path.last() == (x, y);
        assert forall|i: int| 0 <= i < path.len() - 1 implies is_link(
            t,
            low1,
            #[trigger] path[i],
            path[i + 1],
        ) by {
            assert(is_link(t, low2, path[i], path[i + 1]));
        }
        assert(is_trace(t, low1, high1, path));
    }
    let tight = edge_map(t, low2, high2).samples;
    let loose = edge_map(t, low1, high1).samples;
    assert forall|i: int| 0 <= i < tight.len() && tight[i] == FOREGROUND implies loose[i] == FOREGROUND by {
        let x = i % (t.width as int);
        let y = i / (t.width as int);
        assert(is_edge(t, low2, high2, x, y));
        assert(is_edge(t, low1, high1, x, y));
    }
    lemma_count_monotone(tight, loose, FOREGROUND);
}

/// Where every magnitude is zero and the high threshold is positive, the
/// detector's output is all background.
pub proof fn lemma_flat_is_background(g: Grid<u32>, d: Grid<Direction>, low: u32, high: u32)
    requires
        g.wf(),
        forall|i: int| 0 <= i < g.samples.len() ==> g.samples[i] == 0,
        high > 0,
    ensures
        edge_map(suppress(g, d), low, high) == Grid::filled(g.width, g.height, BACKGROUND),
{
    let t = suppress(g, d);
    let m = edge_map(t, low, high);
    let blank = Grid::filled(g.width, g.height, BACKGROUND);
    assert forall|x: int, y: int| !#[trigger] is_seed(t, high, x, y) by {
        if t.is_interior(x, y) {
            lemma_suppress_at(g, d, x, y);
            lemma_index_in_range(g.width, g.height, x, y);
        }
    }
    assert forall|x: int, y: int| m.in_bounds(x, y) implies #[trigger] m.at(x, y) == blank.at(x, y) by {
        lemma_edge_map_at(t, low, high, x, y);
        lemma_filled_at(g.width, g.height, BACKGROUND, x, y);
        if is_edge(t, low, high, x, y) {
            let path = choose|path: Seq<(int, int)>| is_trace(t, low, high, path) && #[trigger] path.last() == (x, y);
            assert(is_seed(t, high, path[0].0, path[0].1));
        }
    }
    if g.width > 0 && g.height > 0 {
        lemma_edge_map_at(t, low, high, 0, 0);
        lemma_filled_at(g.width, g.height, BACKGROUND, 0, 0);
    } else {
        assert(m.samples.len() == g.width * g.height);
        assert(blank.samples.len() == g.width * g.height);
    }
    lemma_grid_ext(m, blank);
}

/// Two results of the detector on the same magnitudes, orientations and
/// thresholds are the same raster, sample for sample.
pub proof fn lemma_canny_repeatable(
    first: Image<u8>,
    second: Image<u8>,
    g: Grid<u32>,
    d: Grid<Direction>,
    low: u32,
    high: u32,
)
    requires
        first@ == edge_map(suppress(g, d), low, high),
        second@ == edge_map(suppress(g, d), low, high),
    ensures
        first@ == second@,
        first@.samples == second@.samples,
{
}

/// The order in which the lazy producer hands out pixels holds exactly the
/// foreground pixels of the eager result for the same thinned magnitudes and
/// thresholds, each once.
pub proof fn lemma_order_is_eager_foreground(t: Grid<u32>, low: u32, high: u32)
    requires
        t.wf(),
        t.width <= u32::MAX,
        t.height <= u32::MAX,
    ensures
        traversal(t, low, high).no_duplicates(),
        forall|i: int|
            0 <= i < traversal(t, low, high).len() ==> t.in_bounds(
                (#[trigger] traversal(t, low, high)[i]).0 as int,
                traversal(t, low, high)[i].1 as int,
            ) && edge_map(t, low, high).at(traversal(t, low, high)[i].0 as int, traversal(t, low, high)[i].1 as int)
                == FOREGROUND,
        forall|x: int, y: int|
            t.in_bounds(x, y) && #[trigger] edge_map(t, low, high).at(x, y) == FOREGROUND ==> traversal(
                t,
                low,
                high,
            ).contains((x as u32, y as u32)),
{
    lemma_traversal_lists_edges(t, low, high);
    reveal(lists);
    let order = traversal(t, low, high);
    let m = edge_map(t, low, high);
    if t.width > 0 && t.height > 0 {
        lemma_edge_map_at(t, low, high, 0, 0);
    }
    assert forall|i: int| 0 <= i < order.len() implies t.in_bounds((#[trigger] order[i]).0 as int, order[i].1 as int)
        && m.at(order[i].0 as int, order[i].1 as int) == FOREGROUND by {
        assert(marked(m, order[i].0 as int, order[i].1 as int));
        lemma_edge_map_at(t, low, high, order[i].0 as int, order[i].1 as int);
    }
    assert forall|x: int, y: int| t.in_bounds(x, y) && #[trigger] m.at(x, y) == FOREGROUND implies order.contains(
        (x as u32, y as u32),
    ) by {
        lemma_edge_map_at(t, low, high, x, y);
        assert(marked(m, x, y));
    }
}

/// The pixels that a producer has handed out are distinct edges.
pub proof fn lemma_produced_are_edges(s: CannyPixels)
    requires
        s.wf(),
    ensures
        s.produced().no_duplicates(),
        forall|i: int|
            0 <= i < s.produced().len() ==> is_edge(
                s.thinned(),
                s.low(),
                s.high(),
                (#[trigger] s.produced()[i]).0 as int,
                s.produced()[i].1 as int,
            ),
{
    s.lemma_produced();
}

/// Once a producer is exhausted, the pixels it has handed out are, in the
/// order of discovery and each once, exactly the foreground pixels of the
/// eager result for the same thinned magnitudes and thresholds.
pub proof fn lemma_lazy_matches_eager(s: CannyPixels)
    requires
        s.wf(),
        s.is_exhausted(),
    ensures
        s.produced() == s.order(),
        s.produced().no_duplicates(),
        forall|i: int|
            0 <= i < s.produced().len() ==> edge_map(s.thinned(), s.low(), s.high()).at(
                (#[trigger] s.produced()[i]).0 as int,
                s.produced()[i].1 as int,
            ) == FOREGROUND && s.thinned().in_bounds(s.produced()[i].0 as int, s.produced()[i].1 as int),
        forall|x: int, y: int|
            s.thinned().in_bounds(x, y) && #[trigger] edge_map(s.thinned(), s.low(), s.high()).at(x, y) == FOREGROUND
                ==> s.produced().contains((x as u32, y as u32)),
{
    s.lemma_exhausted();
}

impl CannyPixels {
    proof fn lemma_produced(self)
        requires
            self.wf(),
        ensures
            self.produced().no_duplicates(),
            forall|i: int|
                0 <= i < self.produced().len() ==> is_edge(
                    self.thinned(),
                    self.low(),
                    self.high(),
                    (#[trigger] self.produced()[i]).0 as int,
                    self.produced()[i].1 as int,
                ),
    {
        let known = self.known();
        let given = self.yielded@;
        lemma_listed(self.image@, self.low_threshold, self.high_threshold, self.working_image@, known);
        assert forall|i: int| 0 <= i < given.len() implies given[i] == known[i] by {}
        assert forall|i: int, j: int| 0 <= i < given.len() && 0 <= j < given.len() && i != j implies given[i] != given[j] by {
            assert(given[i] == known[i] && given[j] == known[j]);
        }
        assert forall|i: int| 0 <= i < given.len() implies is_edge(
            self.image@,
            self.low_threshold,
            self.high_threshold,
            (#[trigger] given[i]).0 as int,
            given[i].1 as int,
        ) by {
            assert(given[i] == known[i]);
        }
    }

    proof fn lemma_exhausted(self)
        requires
            self.wf(),
            self.is_exhausted(),
        ensures
            self.produced() == self.order(),
            self.produced().no_duplicates(),
            forall|i: int|
                0 <= i < self.produced().len() ==> edge_map(self.thinned(), self.low(), self.high()).at(
                    (#[trigger] self.produced()[i]).0 as int,
                    self.produced()[i].1 as int,
                ) == FOREGROUND && self.thinned().in_bounds(self.produced()[i].0 as int, self.produced()[i].1 as int),
            forall|x: int, y: int|
                self.thinned().in_bounds(x, y) && #[trigger] edge_map(self.thinned(), self.low(), self.high()).at(x, y)
                    == FOREGROUND ==> self.produced().contains((x as u32, y as u32)),
    {
        self.lemma_produced();
        let t = self.image@;
        let low = self.low_threshold;
        let high = self.high_threshold;
        let given = self.yielded@;
        assert(self.pixels@.skip(self.taken as int) =~= Seq::empty());
        assert(self.known() =~= given);
        lemma_scan_end(t, low, high, self.working_image@, self.x as int, self.y as int);
        assert(given + Seq::<(u32, u32)>::empty() =~= given);
        lemma_listed(t, low, high, self.working_image@, given);
        lemma_complete(t, low, high, self.working_image@, given);
        assert forall|i: int| 0 <= i < given.len() implies edge_map(t, low, high).at(
            (#[trigger] given[i]).0 as int,
            given[i].1 as int,
        ) == FOREGROUND && t.in_bounds(given[i].0 as int, given[i].1 as int) by {
            lemma_edge_map_at(t, low, high, given[i].0 as int, given[i].1 as int);
        }
        assert forall|x: int, y: int| t.in_bounds(x, y) && #[trigger] edge_map(t, low, high).at(x, y) == FOREGROUND implies given.contains(
            (x as u32, y as u32),
        ) by {
            lemma_edge_map_at(t, low, high, x, y);
        }
    }
}

} // verus!
