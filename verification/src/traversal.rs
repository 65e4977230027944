//! The order in which hysteresis discovers edge pixels: a row-major scan of
//! the interior for unmarked seeds, and from each a depth-first propagation
//! over an explicit stack.

use vstd::prelude::*;
use crate::raster::{count, lemma_count_update, lemma_index_in_range, Grid};

verus! {

/// The sample value of an edge pixel in a binary raster.
pub const FOREGROUND: u8 = 255;

/// The sample value of a non-edge pixel in a binary raster.
pub const BACKGROUND: u8 = 0;

/// A propagation in progress: the marking, the stack of marked pixels whose
/// neighbours are still to be examined, and the pixels marked so far in the
/// order of marking.
pub ghost struct Sweep {
    pub out: Grid<u8>,
    pub stack: Seq<(u32, u32)>,
    pub log: Seq<(u32, u32)>,
}

/// The propagation with the given parts.
pub open spec fn sweep(out: Grid<u8>, stack: Seq<(u32, u32)>, log: Seq<(u32, u32)>) -> Sweep {
    Sweep { out, stack, log }
}

/// Mark `(x, y)` and enter it on the stack and in the log.
pub open spec fn enter(s: Sweep, x: int, y: int) -> Sweep {
    Sweep {
        out: s.out.put(x, y, FOREGROUND),
        stack: s.stack.push((x as u32, y as u32)),
        log: s.log.push((x as u32, y as u32)),
    }
}

/// Examine `(x, y)`: enter it when it lies in the raster, its magnitude is at
/// least the low threshold, and it is not yet marked.
pub open spec fn visit_step(t: Grid<u32>, low: u32, s: Sweep, x: int, y: int) -> Sweep {
    if t.in_bounds(x, y) && t.at(x, y) >= low && s.out.at(x, y) == BACKGROUND {
        enter(s, x, y)
    } else {
        s
    }
}

/// Examine the six neighbours of `(x, y)` in their fixed order: east,
/// south-east, south, north-west, west, south-west.
pub open spec fn expand(t: Grid<u32>, low: u32, s: Sweep, x: int, y: int) -> Sweep {
    let s1 = visit_step(t, low, s, x + 1, y);
    let s2 = visit_step(t, low, s1, x + 1, y + 1);
    let s3 = visit_step(t, low, s2, x, y + 1);
    let s4 = visit_step(t, low, s3, x - 1, y - 1);
    let s5 = visit_step(t, low, s4, x - 1, y);
    visit_step(t, low, s5, x - 1, y + 1)
}

/// The propagation with the top of its stack removed.
pub open spec fn popped(s: Sweep) -> Sweep {
    Sweep { out: s.out, stack: s.stack.drop_last(), log: s.log }
}

/// Pop and expand until the stack is empty, at most `fuel` times.
pub open spec fn drain(t: Grid<u32>, low: u32, s: Sweep, fuel: nat) -> Sweep
    decreases fuel,
{
    if fuel == 0 || s.stack.len() == 0 {
        s
    } else {
        let p = s.stack.last();
        drain(t, low, expand(t, low, popped(s), p.0 as int, p.1 as int), (fuel - 1) as nat)
    }
}

/// A bound on the number of pops still to come: each pop takes one from the
/// stack, and each push marks a pixel that was unmarked.
pub open spec fn effort(s: Sweep) -> nat {
    2 * count(s.out.samples, BACKGROUND) + s.stack.len()
}

/// The finished propagation from the unmarked seed `(x, y)` over the marking
/// `out`.
pub open spec fn flooded(t: Grid<u32>, low: u32, out: Grid<u8>, x: int, y: int) -> Sweep {
    let start = enter(sweep(out, Seq::empty(), Seq::empty()), x, y);
    drain(t, low, start, effort(start))
}

/// The pixels discovered from the scan position `(x, y)` on, over the
/// marking `out`, in the order of discovery.
#[verifier::opaque]
pub open spec fn scan_rest(t: Grid<u32>, low: u32, high: u32, out: Grid<u8>, x: int, y: int) -> Seq<(u32, u32)>
    decreases t.height - y, t.width - x,
{
    if t.width < 3 || x < 1 || y < 1 || y >= t.height - 1 {
        Seq::empty()
    } else if x >= t.width - 1 {
        scan_rest(t, low, high, out, 1, y + 1)
    } else if t.at(x, y) >= high && out.at(x, y) == BACKGROUND {
        let f = flooded(t, low, out, x, y);
        f.log + scan_rest(t, low, high, f.out, x + 1, y)
    } else {
        scan_rest(t, low, high, out, x + 1, y)
    }
}

/// The edge pixels of a thinned magnitude grid in the order in which
/// hysteresis discovers them.
pub open spec fn traversal(t: Grid<u32>, low: u32, high: u32) -> Seq<(u32, u32)> {
    scan_rest(t, low, high, Grid::filled(t.width, t.height, BACKGROUND), 1, 1)
}

/// The marking of the propagation has the dimensions of the grid.
pub open spec fn fits(t: Grid<u32>, s: Sweep) -> bool {
    s.out.wf() && s.out.width == t.width && s.out.height == t.height
}

/// Examining a pixel does not raise the effort.
pub proof fn lemma_visit_effort(t: Grid<u32>, low: u32, s: Sweep, x: int, y: int)
    requires
        fits(t, s),
    ensures
        fits(t, visit_step(t, low, s, x, y)),
        effort(visit_step(t, low, s, x, y)) <= effort(s),
{
    if t.in_bounds(x, y) && t.at(x, y) >= low && s.out.at(x, y) == BACKGROUND {
        lemma_index_in_range(t.width, t.height, x, y);
        lemma_count_update(s.out.samples, y * t.width + x, FOREGROUND, BACKGROUND);
    }
}

/// Examining the six neighbours of a pixel does not raise the effort.
pub proof fn lemma_expand_effort(t: Grid<u32>, low: u32, s: Sweep, x: int, y: int)
    requires
        fits(t, s),
    ensures
        fits(t, expand(t, low, s, x, y)),
        effort(expand(t, low, s, x, y)) <= effort(s),
{
    let s1 = visit_step(t, low, s, x + 1, y);
    let s2 = visit_step(t, low, s1, x + 1, y + 1);
    let s3 = visit_step(t, low, s2, x, y + 1);
    let s4 = visit_step(t, low, s3, x - 1, y - 1);
    let s5 = visit_step(t, low, s4, x - 1, y);
    lemma_visit_effort(t, low, s, x + 1, y);
    lemma_visit_effort(t, low, s1, x + 1, y + 1);
    lemma_visit_effort(t, low, s2, x, y + 1);
    lemma_visit_effort(t, low, s3, x - 1, y - 1);
    lemma_visit_effort(t, low, s4, x - 1, y);
    lemma_visit_effort(t, low, s5, x - 1, y + 1);
}

/// Fuel beyond the effort changes nothing: the stack is empty before it is
/// used up.
pub proof fn lemma_drain_fuel(t: Grid<u32>, low: u32, s: Sweep, fuel: nat)
    requires
        fits(t, s),
        fuel >= effort(s),
    ensures
        drain(t, low, s, fuel) == drain(t, low, s, effort(s)),
        drain(t, low, s, fuel).stack.len() == 0,
        fits(t, drain(t, low, s, fuel)),
    decreases fuel,
{
    if s.stack.len() > 0 {
        let p = s.stack.last();
        let next = expand(t, low, popped(s), p.0 as int, p.1 as int);
        assert(effort(popped(s)) == effort(s) - 1);
        lemma_expand_effort(t, low, popped(s), p.0 as int, p.1 as int);
        lemma_drain_fuel(t, low, next, (fuel - 1) as nat);
        lemma_drain_fuel(t, low, next, (effort(s) - 1) as nat);
    }
}

/// Past the last interior row, or on a raster without interior, nothing is
/// left to discover.
pub proof fn lemma_scan_end(t: Grid<u32>, low: u32, high: u32, out: Grid<u8>, x: int, y: int)
    requires
        t.width < 3 || y >= t.height - 1,
    ensures
        scan_rest(t, low, high, out, x, y) == Seq::<(u32, u32)>::empty(),
{
    reveal(scan_rest);
}

/// One step of the scan: past the end of a row it goes on with the next row;
/// at an unmarked seed it discovers what propagation reaches and goes on
/// over the new marking; at any other pixel it goes on.
pub proof fn lemma_scan_step(t: Grid<u32>, low: u32, high: u32, out: Grid<u8>, x: int, y: int)
    requires
        t.width >= 3,
        1 <= x,
        1 <= y < t.height - 1,
    ensures
        scan_rest(t, low, high, out, x, y) == if x >= t.width - 1 {
            scan_rest(t, low, high, out, 1, y + 1)
        } else if t.at(x, y) >= high && out.at(x, y) == BACKGROUND {
            flooded(t, low, out, x, y).log + scan_rest(t, low, high, flooded(t, low, out, x, y).out, x + 1, y)
        } else {
            scan_rest(t, low, high, out, x + 1, y)
        },
{
    reveal(scan_rest);
}

} // verus!
