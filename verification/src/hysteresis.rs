//! Double-threshold hysteresis: which pixels of a thinned magnitude raster
//! are edges, and the flood propagation that finds them.

use vstd::prelude::*;
use crate::traversal::{
    enter, drain, effort, expand, fits, flooded, lemma_drain_fuel, lemma_expand_effort, lemma_scan_end, lemma_scan_step, popped, scan_rest, sweep, traversal,
    visit_step, Sweep, BACKGROUND, FOREGROUND,
};
use crate::raster::{count, lemma_count_update, Grid, Image, lemma_filled_at, lemma_grid_ext, lemma_index_in_range, lemma_put_at, lemma_tabulate_at};

verus! {

/// A seed is an interior pixel whose magnitude reaches the high threshold.
pub open spec fn is_seed(t: Grid<u32>, high: u32, x: int, y: int) -> bool {
    t.is_interior(x, y) && t.at(x, y) >= high
}

/// The six offsets along which an edge propagates from `p` to `q`: east,
/// south-east, south, north-west, west and south-west. North and north-east
/// are not among them.
pub open spec fn is_neighbor(p: (int, int), q: (int, int)) -> bool {
    let dx = q.0 - p.0;
    let dy = q.1 - p.1;
    ||| (dx == 1 && dy == 0)
    ||| (dx == 1 && dy == 1)
    ||| (dx == 0 && dy == 1)
    ||| (dx == -1 && dy == -1)
    ||| (dx == -1 && dy == 0)
    ||| (dx == -1 && dy == 1)
}

/// Propagation from `p` reaches `q` when `q` is one of the six neighbours of
/// `p`, lies in the raster, and has a magnitude of at least the low threshold.
pub open spec fn is_link(t: Grid<u32>, low: u32, p: (int, int), q: (int, int)) -> bool {
    is_neighbor(p, q) && t.in_bounds(q.0, q.1) && t.at(q.0, q.1) >= low
}

/// A trace starts at a seed and proceeds by links.
pub open spec fn is_trace(t: Grid<u32>, low: u32, high: u32, path: Seq<(int, int)>) -> bool {
    &&& path.len() > 0
    &&& is_seed(t, high, path[0].0, path[0].1)
    &&& forall|i: int| 0 <= i < path.len() - 1 ==> is_link(t, low, #[trigger] path[i], path[i + 1])
}

/// A pixel is an edge when some trace ends at it.
pub open spec fn is_edge(t: Grid<u32>, low: u32, high: u32, x: int, y: int) -> bool {
    exists|path: Seq<(int, int)>| is_trace(t, low, high, path) && #[trigger] path.last() == (x, y)
}

/// The binary grid of the edges: foreground at every edge pixel, background
/// everywhere else.
pub open spec fn edge_map(t: Grid<u32>, low: u32, high: u32) -> Grid<u8> {
    Grid::tabulate(
        t.width,
        t.height,
        |x: int, y: int|
            if is_edge(t, low, high, x, y) {
                FOREGROUND
            } else {
                BACKGROUND
            },
    )
}

/// Reading the edge map tells whether the pixel is an edge.
pub proof fn lemma_edge_map_at(t: Grid<u32>, low: u32, high: u32, x: int, y: int)
    requires
        t.in_bounds(x, y),
    ensures
        edge_map(t, low, high).wf(),
        edge_map(t, low, high).width == t.width,
        edge_map(t, low, high).height == t.height,
        edge_map(t, low, high).at(x, y) == if is_edge(t, low, high, x, y) {
            FOREGROUND
        } else {
            BACKGROUND
        },
{
    lemma_tabulate_at(
        t.width,
        t.height,
        |x: int, y: int|
            if is_edge(t, low, high, x, y) {
                FOREGROUND
            } else {
                BACKGROUND
            },
        x,
        y,
    );
}

/// A seed is an edge.
pub proof fn lemma_seed_is_edge(t: Grid<u32>, low: u32, high: u32, x: int, y: int)
    requires
        is_seed(t, high, x, y),
    ensures
        is_edge(t, low, high, x, y),
{
    let path = seq![(x, y)];
    assert(is_trace(t, low, high, path));
    assert(path.last() == (x, y));
}

/// What an edge links to is an edge.
pub proof fn lemma_link_is_edge(t: Grid<u32>, low: u32, high: u32, p: (int, int), q: (int, int))
    requires
        is_edge(t, low, high, p.0, p.1),
        is_link(t, low, p, q),
    ensures
        is_edge(t, low, high, q.0, q.1),
{
    let path = choose|path: Seq<(int, int)>| is_trace(t, low, high, path) && #[trigger] path.last() == (p.0, p.1);
    let longer = path.push(q);
    assert forall|i: int| 0 <= i < longer.len() - 1 implies is_link(t, low, #[trigger] longer[i], longer[i + 1]) by {
        if i < path.len() - 1 {
            assert(longer[i] == path[i]);
            assert(longer[i + 1] == path[i + 1]);
        } else {
            assert(longer[i] == p);
        }
    }
    assert(longer[0] == path[0]);
    assert(is_trace(t, low, high, longer));
    assert(longer.last() == (q.0, q.1));
}

/// An edge lies in the raster, and is a seed or has a magnitude of at least
/// the low threshold.
pub proof fn lemma_edge_strength(t: Grid<u32>, low: u32, high: u32, x: int, y: int)
    requires
        is_edge(t, low, high, x, y),
    ensures
        t.in_bounds(x, y),
        is_seed(t, high, x, y) || t.at(x, y) >= low,
{
    let path = choose|path: Seq<(int, int)>| is_trace(t, low, high, path) && #[trigger] path.last() == (x, y);
    if path.len() > 1 {
        let i = path.len() - 2;
        assert(is_link(t, low, path[i], path[i + 1]));
    }
}

/// Whether `(x, y)` is a foreground pixel of `out`.
pub open spec fn marked(out: Grid<u8>, x: int, y: int) -> bool {
    out.in_bounds(x, y) && out.at(x, y) == FOREGROUND
}

/// Every sample is foreground or background.
pub open spec fn is_binary(out: Grid<u8>) -> bool {
    forall|x: int, y: int| out.in_bounds(x, y) ==> #[trigger] out.at(x, y) == FOREGROUND || out.at(x, y) == BACKGROUND
}

/// The neighbour `(u, v)` needs no further attention: it is marked, or
/// propagation does not reach it.
pub open spec fn settled(t: Grid<u32>, low: u32, out: Grid<u8>, u: int, v: int) -> bool {
    t.in_bounds(u, v) && t.at(u, v) >= low ==> marked(out, u, v)
}

/// All six neighbours of `(x, y)` are settled.
pub open spec fn closed_at(t: Grid<u32>, low: u32, out: Grid<u8>, x: int, y: int) -> bool {
    &&& settled(t, low, out, x + 1, y)
    &&& settled(t, low, out, x + 1, y + 1)
    &&& settled(t, low, out, x, y + 1)
    &&& settled(t, low, out, x - 1, y - 1)
    &&& settled(t, low, out, x - 1, y)
    &&& settled(t, low, out, x - 1, y + 1)
}

/// The state of a propagation in progress. `before` is the marking at its
/// start, `out` the marking now, `stack` the marked pixels whose neighbours
/// are still to be examined, `log` the pixels marked since the start in the
/// order of marking, and `cur` the pixel under examination, if any.
pub open spec fn tracing(
    t: Grid<u32>,
    low: u32,
    high: u32,
    before: Grid<u8>,
    out: Grid<u8>,
    stack: Seq<(u32, u32)>,
    log: Seq<(u32, u32)>,
    cur: Option<(int, int)>,
) -> bool {
    &&& t.wf()
    &&& out.wf()
    &&& before.wf()
    &&& t.width == out.width == before.width
    &&& t.height == out.height == before.height
    &&& t.width <= u32::MAX
    &&& t.height <= u32::MAX
    &&& is_binary(out)
    &&& forall|x: int, y: int| #[trigger] marked(out, x, y) ==> is_edge(t, low, high, x, y)
    &&& forall|i: int| 0 <= i < stack.len() ==> marked(out, (#[trigger] stack[i]).0 as int, stack[i].1 as int)
    &&& forall|x: int, y: int| #[trigger]
        marked(out, x, y) ==> closed_at(t, low, out, x, y) || stack.contains((x as u32, y as u32)) || cur == Some(
            (x, y),
        )
    &&& forall|x: int, y: int| #[trigger] marked(before, x, y) ==> marked(out, x, y)
    &&& log.no_duplicates()
    &&& forall|i: int|
        0 <= i < log.len() ==> marked(out, (#[trigger] log[i]).0 as int, log[i].1 as int) && !marked(
            before,
            log[i].0 as int,
            log[i].1 as int,
        )
    &&& forall|x: int, y: int| #[trigger]
        marked(out, x, y) && !marked(before, x, y) ==> log.contains((x as u32, y as u32))
}

/// A sequence holds `z` after a push when it held it before or `z` was pushed.
pub proof fn lemma_push_contains<T>(s: Seq<T>, a: T, z: T)
    ensures
        s.push(a).contains(z) <==> s.contains(z) || z == a,
{
    if s.contains(z) {
        let i = choose|i: int| 0 <= i < s.len() && s[i] == z;
        assert(s.push(a)[i] == z);
    }
    if z == a {
        assert(s.push(a)[s.len() as int] == z);
    }
    if s.push(a).contains(z) {
        let i = choose|i: int| 0 <= i < s.push(a).len() && s.push(a)[i] == z;
        if i < s.len() {
            assert(s[i] == z);
        }
    }
}

/// Marking an unmarked edge pixel, and entering it on the stack and in the
/// log, keeps the propagation state.
pub proof fn lemma_enter(
    t: Grid<u32>,
    low: u32,
    high: u32,
    before: Grid<u8>,
    out: Grid<u8>,
    stack: Seq<(u32, u32)>,
    log: Seq<(u32, u32)>,
    cur: Option<(int, int)>,
    qx: u32,
    qy: u32,
)
    requires
        tracing(t, low, high, before, out, stack, log, cur),
        out.in_bounds(qx as int, qy as int),
        out.at(qx as int, qy as int) == BACKGROUND,
        is_edge(t, low, high, qx as int, qy as int),
    ensures
        tracing(
            t,
            low,
            high,
            before,
            out.put(qx as int, qy as int, FOREGROUND),
            stack.push((qx, qy)),
            log.push((qx, qy)),
            cur,
        ),
        marked(out.put(qx as int, qy as int, FOREGROUND), qx as int, qy as int),
        forall|x: int, y: int| #[trigger] marked(out, x, y) ==> marked(out.put(qx as int, qy as int, FOREGROUND), x, y),
        count(out.put(qx as int, qy as int, FOREGROUND).samples, BACKGROUND) + 1 == count(out.samples, BACKGROUND),
{
    let q = (qx, qy);
    let out2 = out.put(qx as int, qy as int, FOREGROUND);
    let stack2 = stack.push(q);
    let log2 = log.push(q);
    lemma_index_in_range(out.width, out.height, qx as int, qy as int);
    lemma_count_update(out.samples, qy * out.width + qx, FOREGROUND, BACKGROUND);
    assert forall|x: int, y: int| out.in_bounds(x, y) implies #[trigger] out2.at(x, y) == if x == qx && y == qy {
        FOREGROUND
    } else {
        out.at(x, y)
    } by {
        lemma_put_at(out, qx as int, qy as int, FOREGROUND, x, y);
    }
    lemma_put_at(out, qx as int, qy as int, FOREGROUND, qx as int, qy as int);
    assert forall|x: int, y: int| #[trigger] marked(out2, x, y) implies marked(out, x, y) || (x == qx && y == qy) by {
        if out2.in_bounds(x, y) {
            assert(out2.at(x, y) == if x == qx && y == qy { FOREGROUND } else { out.at(x, y) });
        }
    }
    assert forall|x: int, y: int| #[trigger] marked(out, x, y) implies marked(out2, x, y) by {
        assert(out2.at(x, y) == if x == qx && y == qy { FOREGROUND } else { out.at(x, y) });
    }
    assert(is_binary(out2)) by {
        assert forall|x: int, y: int| out2.in_bounds(x, y) implies #[trigger] out2.at(x, y) == FOREGROUND || out2.at(x, y)
            == BACKGROUND by {
            assert(out.at(x, y) == FOREGROUND || out.at(x, y) == BACKGROUND);
        }
    }
    assert forall|i: int| 0 <= i < stack2.len() implies marked(out2, (#[trigger] stack2[i]).0 as int, stack2[i].1 as int) by {
        if i < stack.len() {
            assert(stack2[i] == stack[i]);
            assert(marked(out, stack[i].0 as int, stack[i].1 as int));
        }
    }
    assert forall|x: int, y: int| #[trigger] marked(out2, x, y) implies closed_at(t, low, out2, x, y) || stack2.contains(
        (x as u32, y as u32),
    ) || cur == Some((x, y)) by {
        lemma_push_contains(stack, q, (x as u32, y as u32));
        if x == qx && y == qy {
        } else {
            assert(marked(out, x, y));
            if closed_at(t, low, out, x, y) {
                lemma_closed_grows(t, low, out, out2, x, y);
            }
        }
    }
    assert(!log.contains(q)) by {
        if log.contains(q) {
            let i = choose|i: int| 0 <= i < log.len() && log[i] == q;
            assert(marked(out, log[i].0 as int, log[i].1 as int));
        }
    }
    assert(log2.no_duplicates()) by {
        assert forall|i: int, j: int| 0 <= i < log2.len() && 0 <= j < log2.len() && i != j implies log2[i] != log2[j] by {
            if i < log.len() && j < log.len() {
                assert(log2[i] == log[i] && log2[j] == log[j]);
            } else if i < log.len() {
                assert(log2[i] == log[i]);
                assert(log.contains(log[i]));
            } else {
                assert(log2[j] == log[j]);
                assert(log.contains(log[j]));
            }
        }
    }
    assert forall|i: int| 0 <= i < log2.len() implies marked(out2, (#[trigger] log2[i]).0 as int, log2[i].1 as int)
        && !marked(before, log2[i].0 as int, log2[i].1 as int) by {
        if i < log.len() {
            assert(log2[i] == log[i]);
            assert(marked(out, log[i].0 as int, log[i].1 as int));
        } else {
            if marked(before, qx as int, qy as int) {
                assert(marked(out, qx as int, qy as int));
            }
        }
    }
    assert forall|x: int, y: int| #[trigger] marked(out2, x, y) && !marked(before, x, y) implies log2.contains(
        (x as u32, y as u32),
    ) by {
        lemma_push_contains(log, q, (x as u32, y as u32));
    }
}

/// A pixel whose neighbours are settled stays so when the marking grows.
pub proof fn lemma_closed_grows(t: Grid<u32>, low: u32, out: Grid<u8>, out2: Grid<u8>, x: int, y: int)
    requires
        closed_at(t, low, out, x, y),
        forall|u: int, v: int| #[trigger] marked(out, u, v) ==> marked(out2, u, v),
    ensures
        closed_at(t, low, out2, x, y),
{
    lemma_settled_grows(t, low, out, out2, x + 1, y);
    lemma_settled_grows(t, low, out, out2, x + 1, y + 1);
    lemma_settled_grows(t, low, out, out2, x, y + 1);
    lemma_settled_grows(t, low, out, out2, x - 1, y - 1);
    lemma_settled_grows(t, low, out, out2, x - 1, y);
    lemma_settled_grows(t, low, out, out2, x - 1, y + 1);
}

/// A settled neighbour stays settled when the marking grows.
pub proof fn lemma_settled_grows(t: Grid<u32>, low: u32, out: Grid<u8>, out2: Grid<u8>, u: int, v: int)
    requires
        settled(t, low, out, u, v),
        forall|a: int, b: int| #[trigger] marked(out, a, b) ==> marked(out2, a, b),
    ensures
        settled(t, low, out2, u, v),
{
    if t.in_bounds(u, v) && t.at(u, v) >= low {
        assert(marked(out, u, v));
    }
}

/// Taking the top of the stack under examination keeps the propagation state.
pub proof fn lemma_pop(
    t: Grid<u32>,
    low: u32,
    high: u32,
    before: Grid<u8>,
    out: Grid<u8>,
    stack: Seq<(u32, u32)>,
    log: Seq<(u32, u32)>,
)
    requires
        tracing(t, low, high, before, out, stack, log, None),
        stack.len() > 0,
    ensures
        tracing(
            t,
            low,
            high,
            before,
            out,
            stack.drop_last(),
            log,
            Some((stack.last().0 as int, stack.last().1 as int)),
        ),
        marked(out, stack.last().0 as int, stack.last().1 as int),
{
    let rest = stack.drop_last();
    let p = stack.last();
    let cur = Some((p.0 as int, p.1 as int));
    assert(stack[stack.len() - 1] == p);
    assert forall|i: int| 0 <= i < rest.len() implies marked(out, (#[trigger] rest[i]).0 as int, rest[i].1 as int) by {
        assert(rest[i] == stack[i]);
    }
    assert forall|x: int, y: int| #[trigger] marked(out, x, y) implies closed_at(t, low, out, x, y) || rest.contains(
        (x as u32, y as u32),
    ) || cur == Some((x, y)) by {
        let z = (x as u32, y as u32);
        if !closed_at(t, low, out, x, y) {
            assert(stack.contains(z));
            let i = choose|i: int| 0 <= i < stack.len() && stack[i] == z;
            if i < rest.len() {
                assert(rest[i] == z);
            } else {
                assert(z == p);
            }
        }
    }
}

/// Once all six neighbours of the pixel under examination are settled, the
/// examination is over.
pub proof fn lemma_settle(
    t: Grid<u32>,
    low: u32,
    high: u32,
    before: Grid<u8>,
    out: Grid<u8>,
    stack: Seq<(u32, u32)>,
    log: Seq<(u32, u32)>,
    p: (int, int),
)
    requires
        tracing(t, low, high, before, out, stack, log, Some(p)),
        closed_at(t, low, out, p.0, p.1),
    ensures
        tracing(t, low, high, before, out, stack, log, None),
{
}

/// Starting a new propagation from the present marking.
pub proof fn lemma_rebase(
    t: Grid<u32>,
    low: u32,
    high: u32,
    before: Grid<u8>,
    out: Grid<u8>,
    log: Seq<(u32, u32)>,
)
    requires
        tracing(t, low, high, before, out, Seq::empty(), log, None),
    ensures
        tracing(t, low, high, out, out, Seq::empty(), Seq::empty(), None),
{
    let none: Seq<(u32, u32)> = Seq::empty();
    assert forall|x: int, y: int| #[trigger] marked(out, x, y) implies closed_at(t, low, out, x, y) || none.contains(
        (x as u32, y as u32),
    ) || false by {
        if log.len() >= 0 {
            assert(!Seq::<(u32, u32)>::empty().contains((x as u32, y as u32)));
        }
    }
}

/// Examine one pixel of the raster: if its magnitude reaches the low
/// threshold and it is not yet marked, mark it and enter it on the stack and
/// in the log.
pub(crate) fn visit(
    input: &Image<u32>,
    low: u32,
    out: &mut Image<u8>,
    edges: &mut Vec<(u32, u32)>,
    found: &mut Vec<(u32, u32)>,
    qx: u32,
    qy: u32,
)
    requires
        input.wf(),
        old(out).wf(),
        fits(input@, sweep(old(out)@, old(edges)@, old(found)@)),
        input@.in_bounds(qx as int, qy as int),
    ensures
        final(out).wf(),
        sweep(final(out)@, final(edges)@, final(found)@) == visit_step(
            input@,
            low,
            sweep(old(out)@, old(edges)@, old(found)@),
            qx as int,
            qy as int,
        ),
{
    let strength: u32 = input.get_pixel(qx, qy);
    let state: u8 = out.get_pixel(qx, qy);
    if strength >= low && state == BACKGROUND {
        out.put_pixel(qx, qy, FOREGROUND);
        edges.push((qx, qy));
        found.push((qx, qy));
    }
}

/// Mark the pixel `(x, y)` and everything that propagation reaches from it,
/// entering each newly marked pixel in `found` in the order of marking.
pub(crate) fn flood(input: &Image<u32>, low: u32, out: &mut Image<u8>, found: &mut Vec<(u32, u32)>, x: u32, y: u32)
    requires
        input.wf(),
        old(out).wf(),
        old(out)@.width == input@.width,
        old(out)@.height == input@.height,
        old(found)@.len() == 0,
        input@.in_bounds(x as int, y as int),
    ensures
        final(out).wf(),
        final(out)@ == flooded(input@, low, old(out)@, x as int, y as int).out,
        final(found)@ == flooded(input@, low, old(out)@, x as int, y as int).log,
{
    let width: u32 = input.width();
    let height: u32 = input.height();
    let ghost before = out@;
    let mut edges: Vec<(u32, u32)> = Vec::new();
    out.put_pixel(x, y, FOREGROUND);
    found.push((x, y));
    edges.push((x, y));
    proof {
        assert(found@ =~= Seq::<(u32, u32)>::empty().push((x, y)));
        assert(edges@ =~= Seq::<(u32, u32)>::empty().push((x, y)));
        assert(sweep(out@, edges@, found@) == enter(sweep(before, Seq::empty(), Seq::empty()), x as int, y as int));
        crate::raster::lemma_put_at(before, x as int, y as int, FOREGROUND, x as int, y as int);
    }
    while edges.len() > 0
        invariant
            input.wf(),
            out.wf(),
            width == input@.width,
            height == input@.height,
            fits(input@, sweep(out@, edges@, found@)),
            forall|i: int| 0 <= i < edges@.len() ==> input@.in_bounds((#[trigger] edges@[i]).0 as int, edges@[i].1 as int),
            drain(input@, low, sweep(out@, edges@, found@), effort(sweep(out@, edges@, found@))) == flooded(
                input@,
                low,
                before,
                x as int,
                y as int,
            ),
        decreases effort(sweep(out@, edges@, found@)),
    {
        let ghost cur = sweep(out@, edges@, found@);
        let (nx, ny): (u32, u32) = edges.pop().unwrap();
        proof {
            assert(edges@ =~= cur.stack.drop_last());
            assert(sweep(out@, edges@, found@) == popped(cur));
            lemma_expand_effort(input@, low, popped(cur), nx as int, ny as int);
        }
        if nx + 1 < width {
            visit(input, low, out, &mut edges, found, nx + 1, ny);
            if ny + 1 < height {
                visit(input, low, out, &mut edges, found, nx + 1, ny + 1);
            }
        }
        if ny + 1 < height {
            visit(input, low, out, &mut edges, found, nx, ny + 1);
        }
        if nx >= 1 {
            if ny >= 1 {
                visit(input, low, out, &mut edges, found, nx - 1, ny - 1);
            }
            visit(input, low, out, &mut edges, found, nx - 1, ny);
            if ny + 1 < height {
                visit(input, low, out, &mut edges, found, nx - 1, ny + 1);
            }
        }
        proof {
            let next = sweep(out@, edges@, found@);
            assert(next == expand(input@, low, popped(cur), nx as int, ny as int));
            assert(effort(popped(cur)) == effort(cur) - 1);
            assert(drain(input@, low, cur, effort(cur)) == drain(input@, low, next, (effort(cur) - 1) as nat));
            lemma_drain_fuel(input@, low, next, (effort(cur) - 1) as nat);
            lemma_stack_in_bounds(input@, low, popped(cur), nx as int, ny as int);
        }
    }
    proof {
        assert(edges@ =~= Seq::empty());
    }
}

/// Every pixel that an examination enters on the stack lies in the raster.
pub proof fn lemma_stack_in_bounds(t: Grid<u32>, low: u32, s: Sweep, x: int, y: int)
    requires
        forall|i: int| 0 <= i < s.stack.len() ==> t.in_bounds((#[trigger] s.stack[i]).0 as int, s.stack[i].1 as int),
        t.width <= u32::MAX,
        t.height <= u32::MAX,
    ensures
        forall|i: int|
            0 <= i < expand(t, low, s, x, y).stack.len() ==> t.in_bounds(
                (#[trigger] expand(t, low, s, x, y).stack[i]).0 as int,
                expand(t, low, s, x, y).stack[i].1 as int,
            ),
{
    let s1 = visit_step(t, low, s, x + 1, y);
    let s2 = visit_step(t, low, s1, x + 1, y + 1);
    let s3 = visit_step(t, low, s2, x, y + 1);
    let s4 = visit_step(t, low, s3, x - 1, y - 1);
    let s5 = visit_step(t, low, s4, x - 1, y);
    let s6 = visit_step(t, low, s5, x - 1, y + 1);
    assert forall|i: int| 0 <= i < s1.stack.len() implies t.in_bounds((#[trigger] s1.stack[i]).0 as int, s1.stack[i].1 as int) by {
        if i < s.stack.len() {
            assert(s1.stack[i] == s.stack[i]);
        }
    }
    assert forall|i: int| 0 <= i < s2.stack.len() implies t.in_bounds((#[trigger] s2.stack[i]).0 as int, s2.stack[i].1 as int) by {
        if i < s1.stack.len() {
            assert(s2.stack[i] == s1.stack[i]);
        }
    }
    assert forall|i: int| 0 <= i < s3.stack.len() implies t.in_bounds((#[trigger] s3.stack[i]).0 as int, s3.stack[i].1 as int) by {
        if i < s2.stack.len() {
            assert(s3.stack[i] == s2.stack[i]);
        }
    }
    assert forall|i: int| 0 <= i < s4.stack.len() implies t.in_bounds((#[trigger] s4.stack[i]).0 as int, s4.stack[i].1 as int) by {
        if i < s3.stack.len() {
            assert(s4.stack[i] == s3.stack[i]);
        }
    }
    assert forall|i: int| 0 <= i < s5.stack.len() implies t.in_bounds((#[trigger] s5.stack[i]).0 as int, s5.stack[i].1 as int) by {
        if i < s4.stack.len() {
            assert(s5.stack[i] == s4.stack[i]);
        }
    }
    assert forall|i: int| 0 <= i < s6.stack.len() implies t.in_bounds((#[trigger] s6.stack[i]).0 as int, s6.stack[i].1 as int) by {
        if i < s5.stack.len() {
            assert(s6.stack[i] == s5.stack[i]);
        }
    }
}

/// In a finished propagation, what a marked pixel links to is marked.
pub proof fn lemma_closed_link(t: Grid<u32>, low: u32, high: u32, out: Grid<u8>, p: (int, int), q: (int, int))
    requires
        tracing(t, low, high, out, out, Seq::empty(), Seq::empty(), None),
        marked(out, p.0, p.1),
        is_link(t, low, p, q),
    ensures
        marked(out, q.0, q.1),
{
    assert(!Seq::<(u32, u32)>::empty().contains((p.0 as u32, p.1 as u32)));
    assert(closed_at(t, low, out, p.0, p.1));
    assert(settled(t, low, out, q.0, q.1));
}

/// A trace without its last pixel is a trace, and links to that pixel.
pub proof fn lemma_trace_prefix(t: Grid<u32>, low: u32, high: u32, path: Seq<(int, int)>)
    requires
        is_trace(t, low, high, path),
        path.len() > 1,
    ensures
        is_trace(t, low, high, path.drop_last()),
        is_link(t, low, path.drop_last().last(), path.last()),
{
    let shorter = path.drop_last();
    assert(shorter[0] == path[0]);
    assert forall|i: int| 0 <= i < shorter.len() - 1 implies is_link(t, low, #[trigger] shorter[i], shorter[i + 1]) by {
        assert(shorter[i] == path[i]);
        assert(shorter[i + 1] == path[i + 1]);
        assert(is_link(t, low, path[i], path[i + 1]));
    }
    let k = path.len() - 2;
    assert(shorter.last() == path[k]);
    assert(is_link(t, low, path[k], path[k + 1]));
}

/// When the marking is closed under propagation and holds every seed, it
/// holds the end of every trace.
pub proof fn lemma_trace_marked(t: Grid<u32>, low: u32, high: u32, out: Grid<u8>, path: Seq<(int, int)>)
    requires
        tracing(t, low, high, out, out, Seq::empty(), Seq::empty(), None),
        forall|x: int, y: int| #[trigger] is_seed(t, high, x, y) ==> marked(out, x, y),
        is_trace(t, low, high, path),
    ensures
        marked(out, path.last().0, path.last().1),
    decreases path.len(),
{
    if path.len() == 1 {
        assert(is_seed(t, high, path[0].0, path[0].1));
    } else {
        lemma_trace_prefix(t, low, high, path);
        lemma_trace_marked(t, low, high, out, path.drop_last());
        lemma_closed_link(t, low, high, out, path.drop_last().last(), path.last());
    }
}

/// Filter out edges with the thresholds: a pixel of the result is foreground
/// exactly when a trace ends at it, and background otherwise. The foreground
/// pixels are those of the order of discovery, each once.
pub fn hysteresis(input: &Image<u32>, low_thresh: u32, high_thresh: u32) -> (out: Image<u8>)
    requires
        input.wf(),
        low_thresh <= high_thresh,
    ensures
        out.wf(),
        out@ == edge_map(input@, low_thresh, high_thresh),
        lists(out@, traversal(input@, low_thresh, high_thresh)),
{
    let width: u32 = input.width();
    let height: u32 = input.height();
    let mut out: Image<u8> = input.filled_like(BACKGROUND);
    let ghost mut log: Seq<(u32, u32)> = Seq::empty();
    proof {
        lemma_blank_stable(input@, low_thresh, high_thresh);
        assert(log + scan_rest(input@, low_thresh, high_thresh, out@, 1, 1) =~= traversal(input@, low_thresh, high_thresh));
    }
    if width >= 3 && height >= 3 {
        let mut y: u32 = 1;
        while y < height - 1
            invariant
                input.wf(),
                out.wf(),
                width == input@.width == out@.width,
                height == input@.height == out@.height,
                width >= 3,
                height >= 3,
                1 <= y <= height - 1,
                stable(input@, low_thresh, high_thresh, out@),
                lists(out@, log),
                log + scan_rest(input@, low_thresh, high_thresh, out@, 1, y as int) == traversal(
                    input@,
                    low_thresh,
                    high_thresh,
                ),
                forall|u: int, v: int| #[trigger]
                    is_seed(input@, high_thresh, u, v) && scanned_before(u, v, 1, y as int) ==> marked(out@, u, v),
            decreases height - y,
        {
            let mut x: u32 = 1;
            while x < width - 1
                invariant
                    input.wf(),
                    out.wf(),
                    width == input@.width == out@.width,
                    height == input@.height == out@.height,
                    width >= 3,
                    height >= 3,
                    1 <= y < height - 1,
                    1 <= x <= width - 1,
                    stable(input@, low_thresh, high_thresh, out@),
                    lists(out@, log),
                    log + scan_rest(input@, low_thresh, high_thresh, out@, x as int, y as int) == traversal(
                        input@,
                        low_thresh,
                        high_thresh,
                    ),
                    forall|u: int, v: int| #[trigger]
                        is_seed(input@, high_thresh, u, v) && scanned_before(u, v, x as int, y as int) ==> marked(
                            out@,
                            u,
                            v,
                        ),
                decreases width - x,
            {
                let strength: u32 = input.get_pixel(x, y);
                let state: u8 = out.get_pixel(x, y);
                proof {
                    lemma_scan_step(input@, low_thresh, high_thresh, out@, x as int, y as int);
                    lemma_stable_binary(input@, low_thresh, high_thresh, out@);
                    assert(state == FOREGROUND || state == BACKGROUND);
                }
                if strength >= high_thresh && state == BACKGROUND {
                    let mut found: Vec<(u32, u32)> = Vec::new();
                    flood_from(input, low_thresh, high_thresh, &mut out, &mut found, x, y, Ghost(log));
                    proof {
                        assert((log + found@) + scan_rest(input@, low_thresh, high_thresh, out@, x + 1, y as int) =~= log + (
                        found@ + scan_rest(input@, low_thresh, high_thresh, out@, x + 1, y as int)));
                        log = log + found@;
                    }
                }
                x = x + 1;
            }
            proof {
                lemma_scan_step(input@, low_thresh, high_thresh, out@, x as int, y as int);
            }
            y = y + 1;
        }
        proof {
            lemma_scan_end(input@, low_thresh, high_thresh, out@, 1, y as int);
            assert(log + Seq::<(u32, u32)>::empty() =~= log);
        }
    } else {
        proof {
            lemma_scan_end(input@, low_thresh, high_thresh, out@, 1, 1);
            assert(log + Seq::<(u32, u32)>::empty() =~= log);
        }
    }
    proof {
        lemma_complete(input@, low_thresh, high_thresh, out@, log);
    }
    out
}

/// A marking at rest: no propagation is in progress, every marked pixel is
/// an edge, and what a marked pixel links to is marked.
#[verifier::opaque]
pub open spec fn stable(t: Grid<u32>, low: u32, high: u32, out: Grid<u8>) -> bool {
    tracing(t, low, high, out, out, Seq::empty(), Seq::empty(), None)
}

/// Mark the unmarked seed `(x, y)` of a marking at rest and everything that
/// propagation reaches from it, and hand back the newly marked pixels in
/// `found` in the order of marking.
pub(crate) fn flood_from(
    input: &Image<u32>,
    low: u32,
    high: u32,
    out: &mut Image<u8>,
    found: &mut Vec<(u32, u32)>,
    x: u32,
    y: u32,
    Ghost(given): Ghost<Seq<(u32, u32)>>,
)
    requires
        input.wf(),
        old(out).wf(),
        stable(input@, low, high, old(out)@),
        lists(old(out)@, given),
        old(found)@.len() == 0,
        is_seed(input@, high, x as int, y as int),
        old(out)@.at(x as int, y as int) == BACKGROUND,
    ensures
        final(out).wf(),
        final(out)@.width == old(out)@.width,
        final(out)@.height == old(out)@.height,
        stable(input@, low, high, final(out)@),
        lists(final(out)@, given + final(found)@),
        final(found)@.len() > 0,
        marked(final(out)@, x as int, y as int),
        forall|u: int, v: int| #[trigger] marked(old(out)@, u, v) ==> marked(final(out)@, u, v),
        final(out)@ == flooded(input@, low, old(out)@, x as int, y as int).out,
        final(found)@ == flooded(input@, low, old(out)@, x as int, y as int).log,
{
    proof {
        lemma_stable_binary(input@, low, high, out@);
        lemma_flooded(input@, low, high, out@, given, x as int, y as int);
    }
    flood(input, low, out, found, x, y);
    proof {
        lemma_stable_binary(input@, low, high, out@);
        reveal(lists);
        assert(found@.contains((x, y)));
    }
}

/// A marking at rest has the dimensions of the raster, and each of its
/// samples is foreground or background.
pub proof fn lemma_stable_binary(t: Grid<u32>, low: u32, high: u32, out: Grid<u8>)
    requires
        stable(t, low, high, out),
    ensures
        out.wf(),
        out.width == t.width,
        out.height == t.height,
        is_binary(out),
{
    reveal(stable);
}

/// The all-background marking is at rest and lists nothing.
pub proof fn lemma_blank_stable(t: Grid<u32>, low: u32, high: u32)
    requires
        t.wf(),
        t.width <= u32::MAX,
        t.height <= u32::MAX,
    ensures
        stable(t, low, high, Grid::filled(t.width, t.height, BACKGROUND)),
        lists(Grid::filled(t.width, t.height, BACKGROUND), Seq::empty()),
        forall|u: int, v: int| !#[trigger] marked(Grid::filled(t.width, t.height, BACKGROUND), u, v),
{
    reveal(stable);
    reveal(lists);
    lemma_blank_state(t, low, high);
    let out = Grid::filled(t.width, t.height, BACKGROUND);
    assert forall|u: int, v: int| !#[trigger] marked(out, u, v) by {
        if out.in_bounds(u, v) {
            lemma_filled_at(t.width, t.height, BACKGROUND, u, v);
        }
    }
}

/// The pixels listed for a marking at rest are distinct edges of the raster.
pub proof fn lemma_listed(t: Grid<u32>, low: u32, high: u32, out: Grid<u8>, known: Seq<(u32, u32)>)
    requires
        stable(t, low, high, out),
        lists(out, known),
    ensures
        known.no_duplicates(),
        forall|i: int|
            0 <= i < known.len() ==> is_edge(t, low, high, (#[trigger] known[i]).0 as int, known[i].1 as int)
                && t.in_bounds(known[i].0 as int, known[i].1 as int),
{
    reveal(stable);
    reveal(lists);
    assert forall|i: int| 0 <= i < known.len() implies is_edge(
        t,
        low,
        high,
        (#[trigger] known[i]).0 as int,
        known[i].1 as int,
    ) && t.in_bounds(known[i].0 as int, known[i].1 as int) by {
        assert(marked(out, known[i].0 as int, known[i].1 as int));
    }
}

/// A marking at rest that holds every seed is the edge map, and the pixels
/// listed for it are all the edges.
pub proof fn lemma_complete(t: Grid<u32>, low: u32, high: u32, out: Grid<u8>, known: Seq<(u32, u32)>)
    requires
        stable(t, low, high, out),
        lists(out, known),
        forall|x: int, y: int| #[trigger] is_seed(t, high, x, y) ==> marked(out, x, y),
    ensures
        out == edge_map(t, low, high),
        forall|x: int, y: int| #[trigger] is_edge(t, low, high, x, y) ==> known.contains((x as u32, y as u32)),
{
    reveal(stable);
    reveal(lists);
    lemma_closed_is_edge_map(t, low, high, out);
    assert forall|x: int, y: int| #[trigger] is_edge(t, low, high, x, y) implies known.contains((x as u32, y as u32)) by {
        let path = choose|path: Seq<(int, int)>| is_trace(t, low, high, path) && #[trigger] path.last() == (x, y);
        lemma_trace_marked(t, low, high, out, path);
    }
}

/// Whether `(u, v)` comes before `(x, y)` in the row-major scan.
pub open spec fn scanned_before(u: int, v: int, x: int, y: int) -> bool {
    v < y || (v == y && u < x)
}

/// The all-background marking is a propagation state.
pub proof fn lemma_blank_state(t: Grid<u32>, low: u32, high: u32)
    requires
        t.wf(),
        t.width <= u32::MAX,
        t.height <= u32::MAX,
    ensures
        tracing(
            t,
            low,
            high,
            Grid::filled(t.width, t.height, BACKGROUND),
            Grid::filled(t.width, t.height, BACKGROUND),
            Seq::empty(),
            Seq::empty(),
            None,
        ),
{
    let out = Grid::filled(t.width, t.height, BACKGROUND);
    assert forall|x: int, y: int| out.in_bounds(x, y) implies #[trigger] out.at(x, y) == BACKGROUND by {
        lemma_filled_at(t.width, t.height, BACKGROUND, x, y);
    }
    assert forall|x: int, y: int| !#[trigger] marked(out, x, y) by {
        if out.in_bounds(x, y) {
            assert(out.at(x, y) == BACKGROUND);
        }
    }
}

/// A marking that is closed under propagation and holds every seed is the
/// edge map.
pub proof fn lemma_closed_is_edge_map(t: Grid<u32>, low: u32, high: u32, out: Grid<u8>)
    requires
        tracing(t, low, high, out, out, Seq::empty(), Seq::empty(), None),
        forall|x: int, y: int| #[trigger] is_seed(t, high, x, y) ==> marked(out, x, y),
    ensures
        out == edge_map(t, low, high),
{
    let m = edge_map(t, low, high);
    assert forall|x: int, y: int| out.in_bounds(x, y) implies #[trigger] out.at(x, y) == m.at(x, y) by {
        lemma_edge_map_at(t, low, high, x, y);
        if is_edge(t, low, high, x, y) {
            let path = choose|path: Seq<(int, int)>| is_trace(t, low, high, path) && #[trigger] path.last() == (x, y);
            lemma_trace_marked(t, low, high, out, path);
        } else {
            if out.at(x, y) == FOREGROUND {
                assert(marked(out, x, y));
            }
        }
    }
    if t.width > 0 && t.height > 0 {
        lemma_edge_map_at(t, low, high, 0, 0);
    } else {
        assert(m.samples.len() == t.width * t.height);
    }
    lemma_grid_ext(out, m);
}

/// `known` lists exactly the marked pixels of `out`, each once.
#[verifier::opaque]
pub open spec fn lists(out: Grid<u8>, known: Seq<(u32, u32)>) -> bool {
    &&& known.no_duplicates()
    &&& forall|i: int| 0 <= i < known.len() ==> marked(out, (#[trigger] known[i]).0 as int, known[i].1 as int)
    &&& forall|u: int, v: int| #[trigger] marked(out, u, v) ==> known.contains((u as u32, v as u32))
}

/// After a propagation, the pixels listed before it followed by its log list
/// the marked pixels.
pub proof fn lemma_lists_after_flood(
    t: Grid<u32>,
    low: u32,
    high: u32,
    prev: Grid<u8>,
    out: Grid<u8>,
    given: Seq<(u32, u32)>,
    fresh: Seq<(u32, u32)>,
)
    requires
        tracing(t, low, high, prev, out, Seq::empty(), fresh, None),
        lists(prev, given),
    ensures
        lists(out, given + fresh),
{
    reveal(lists);
    let known = given + fresh;
    assert forall|i: int, j: int| 0 <= i < known.len() && 0 <= j < known.len() && i != j implies known[i] != known[j] by {
        if i < given.len() && j < given.len() {
        } else if i >= given.len() && j >= given.len() {
            assert(known[i] == fresh[i - given.len()]);
            assert(known[j] == fresh[j - given.len()]);
        } else if i < given.len() {
            assert(known[j] == fresh[j - given.len()]);
            assert(marked(prev, given[i].0 as int, given[i].1 as int));
        } else {
            assert(known[i] == fresh[i - given.len()]);
            assert(marked(prev, given[j].0 as int, given[j].1 as int));
        }
    }
    assert forall|i: int| 0 <= i < known.len() implies marked(out, (#[trigger] known[i]).0 as int, known[i].1 as int) by {
        if i < given.len() {
            assert(marked(prev, given[i].0 as int, given[i].1 as int));
        } else {
            assert(known[i] == fresh[i - given.len()]);
        }
    }
    assert forall|u: int, v: int| #[trigger] marked(out, u, v) implies known.contains((u as u32, v as u32)) by {
        let z = (u as u32, v as u32);
        if marked(prev, u, v) {
            assert(given.contains(z));
            let i = choose|i: int| 0 <= i < given.len() && given[i] == z;
            assert(known[i] == z);
        } else {
            assert(fresh.contains(z));
            let i = choose|i: int| 0 <= i < fresh.len() && fresh[i] == z;
            assert(known[i + given.len()] == z);
        }
    }
}

/// Examining a neighbour of the pixel under examination keeps the
/// propagation state, settles that neighbour, and unmarks nothing.
pub proof fn lemma_visit_step_tracing(
    t: Grid<u32>,
    low: u32,
    high: u32,
    before: Grid<u8>,
    s: Sweep,
    p: (int, int),
    q: (int, int),
)
    requires
        tracing(t, low, high, before, s.out, s.stack, s.log, Some(p)),
        marked(s.out, p.0, p.1),
        is_neighbor(p, q),
    ensures
        tracing(
            t,
            low,
            high,
            before,
            visit_step(t, low, s, q.0, q.1).out,
            visit_step(t, low, s, q.0, q.1).stack,
            visit_step(t, low, s, q.0, q.1).log,
            Some(p),
        ),
        settled(t, low, visit_step(t, low, s, q.0, q.1).out, q.0, q.1),
        forall|x: int, y: int| #[trigger] marked(s.out, x, y) ==> marked(visit_step(t, low, s, q.0, q.1).out, x, y),
{
    if t.in_bounds(q.0, q.1) && t.at(q.0, q.1) >= low {
        if s.out.at(q.0, q.1) == BACKGROUND {
            lemma_link_is_edge(t, low, high, p, q);
            lemma_enter(t, low, high, before, s.out, s.stack, s.log, Some(p), q.0 as u32, q.1 as u32);
        } else {
            assert(s.out.at(q.0, q.1) == FOREGROUND || s.out.at(q.0, q.1) == BACKGROUND);
        }
    }
}

/// Examining the six neighbours of a marked pixel ends its examination and
/// keeps the propagation state.
pub proof fn lemma_expand_tracing(t: Grid<u32>, low: u32, high: u32, before: Grid<u8>, s: Sweep, p: (int, int))
    requires
        tracing(t, low, high, before, s.out, s.stack, s.log, Some(p)),
        marked(s.out, p.0, p.1),
    ensures
        tracing(
            t,
            low,
            high,
            before,
            expand(t, low, s, p.0, p.1).out,
            expand(t, low, s, p.0, p.1).stack,
            expand(t, low, s, p.0, p.1).log,
            None,
        ),
        forall|x: int, y: int| #[trigger] marked(s.out, x, y) ==> marked(expand(t, low, s, p.0, p.1).out, x, y),
{
    let (x, y) = p;
    let s1 = visit_step(t, low, s, x + 1, y);
    let s2 = visit_step(t, low, s1, x + 1, y + 1);
    let s3 = visit_step(t, low, s2, x, y + 1);
    let s4 = visit_step(t, low, s3, x - 1, y - 1);
    let s5 = visit_step(t, low, s4, x - 1, y);
    let s6 = visit_step(t, low, s5, x - 1, y + 1);
    lemma_visit_step_tracing(t, low, high, before, s, p, (x + 1, y));
    lemma_visit_step_tracing(t, low, high, before, s1, p, (x + 1, y + 1));
    lemma_visit_step_tracing(t, low, high, before, s2, p, (x, y + 1));
    lemma_visit_step_tracing(t, low, high, before, s3, p, (x - 1, y - 1));
    lemma_visit_step_tracing(t, low, high, before, s4, p, (x - 1, y));
    lemma_visit_step_tracing(t, low, high, before, s5, p, (x - 1, y + 1));
    assert(settled(t, low, s6.out, x + 1, y)) by {
        lemma_settled_grows(t, low, s1.out, s2.out, x + 1, y);
        lemma_settled_grows(t, low, s2.out, s3.out, x + 1, y);
        lemma_settled_grows(t, low, s3.out, s4.out, x + 1, y);
        lemma_settled_grows(t, low, s4.out, s5.out, x + 1, y);
        lemma_settled_grows(t, low, s5.out, s6.out, x + 1, y);
    }
    assert(settled(t, low, s6.out, x + 1, y + 1)) by {
        lemma_settled_grows(t, low, s2.out, s3.out, x + 1, y + 1);
        lemma_settled_grows(t, low, s3.out, s4.out, x + 1, y + 1);
        lemma_settled_grows(t, low, s4.out, s5.out, x + 1, y + 1);
        lemma_settled_grows(t, low, s5.out, s6.out, x + 1, y + 1);
    }
    assert(settled(t, low, s6.out, x, y + 1)) by {
        lemma_settled_grows(t, low, s3.out, s4.out, x, y + 1);
        lemma_settled_grows(t, low, s4.out, s5.out, x, y + 1);
        lemma_settled_grows(t, low, s5.out, s6.out, x, y + 1);
    }
    assert(settled(t, low, s6.out, x - 1, y - 1)) by {
        lemma_settled_grows(t, low, s4.out, s5.out, x - 1, y - 1);
        lemma_settled_grows(t, low, s5.out, s6.out, x - 1, y - 1);
    }
    assert(settled(t, low, s6.out, x - 1, y)) by {
        lemma_settled_grows(t, low, s5.out, s6.out, x - 1, y);
    }
    lemma_settle(t, low, high, before, s6.out, s6.stack, s6.log, p);
}

/// Draining the stack of a propagation leaves a propagation at rest.
pub proof fn lemma_drain_tracing(t: Grid<u32>, low: u32, high: u32, before: Grid<u8>, s: Sweep, fuel: nat)
    requires
        tracing(t, low, high, before, s.out, s.stack, s.log, None),
        fuel >= effort(s),
    ensures
        tracing(
            t,
            low,
            high,
            before,
            drain(t, low, s, fuel).out,
            Seq::empty(),
            drain(t, low, s, fuel).log,
            None,
        ),
        forall|x: int, y: int| #[trigger] marked(s.out, x, y) ==> marked(drain(t, low, s, fuel).out, x, y),
    decreases fuel,
{
    if s.stack.len() == 0 {
        assert(s.stack =~= Seq::empty());
    } else {
        let p = (s.stack.last().0 as int, s.stack.last().1 as int);
        lemma_pop(t, low, high, before, s.out, s.stack, s.log);
        lemma_expand_tracing(t, low, high, before, popped(s), p);
        lemma_expand_effort(t, low, popped(s), p.0, p.1);
        assert(effort(popped(s)) == effort(s) - 1);
        lemma_drain_tracing(t, low, high, before, expand(t, low, popped(s), p.0, p.1), (fuel - 1) as nat);
    }
}

/// The finished propagation from an unmarked seed of a marking at rest is at
/// rest, holds the seed, and lists what it marked.
pub proof fn lemma_flooded(
    t: Grid<u32>,
    low: u32,
    high: u32,
    out: Grid<u8>,
    given: Seq<(u32, u32)>,
    x: int,
    y: int,
)
    requires
        stable(t, low, high, out),
        lists(out, given),
        is_seed(t, high, x, y),
        out.at(x, y) == BACKGROUND,
    ensures
        stable(t, low, high, flooded(t, low, out, x, y).out),
        lists(flooded(t, low, out, x, y).out, given + flooded(t, low, out, x, y).log),
        marked(flooded(t, low, out, x, y).out, x, y),
        forall|u: int, v: int| #[trigger] marked(out, u, v) ==> marked(flooded(t, low, out, x, y).out, u, v),
{
    reveal(stable);
    let start = enter(sweep(out, Seq::empty(), Seq::empty()), x, y);
    let f = flooded(t, low, out, x, y);
    lemma_seed_is_edge(t, low, high, x, y);
    lemma_enter(t, low, high, out, out, Seq::empty(), Seq::empty(), None, x as u32, y as u32);
    lemma_drain_tracing(t, low, high, out, start, effort(start));
    lemma_rebase(t, low, high, out, f.out, f.log);
    lemma_lists_after_flood(t, low, high, out, f.out, given, f.log);
}

/// From any scan position on, over a marking at rest that holds the seeds
/// before that position, the pixels listed so far followed by those still to
/// be discovered list the edge map.
pub proof fn lemma_scan_lists(
    t: Grid<u32>,
    low: u32,
    high: u32,
    out: Grid<u8>,
    given: Seq<(u32, u32)>,
    x: int,
    y: int,
)
    requires
        stable(t, low, high, out),
        lists(out, given),
        1 <= x,
        1 <= y,
        forall|u: int, v: int| #[trigger] is_seed(t, high, u, v) && scanned_before(u, v, x, y) ==> marked(out, u, v),
    ensures
        lists(edge_map(t, low, high), given + scan_rest(t, low, high, out, x, y)),
    decreases t.height - y, t.width - x,
{
    if t.width < 3 || y >= t.height - 1 {
        lemma_scan_end(t, low, high, out, x, y);
        assert(given + Seq::<(u32, u32)>::empty() =~= given);
        lemma_complete(t, low, high, out, given);
    } else {
        lemma_scan_step(t, low, high, out, x, y);
        lemma_stable_binary(t, low, high, out);
        if x >= t.width - 1 {
            lemma_scan_lists(t, low, high, out, given, 1, y + 1);
        } else if t.at(x, y) >= high && out.at(x, y) == BACKGROUND {
            let f = flooded(t, low, out, x, y);
            lemma_flooded(t, low, high, out, given, x, y);
            lemma_scan_lists(t, low, high, f.out, given + f.log, x + 1, y);
            let rest = scan_rest(t, low, high, f.out, x + 1, y);
            assert((given + f.log) + rest =~= given + (f.log + rest));
        } else {
            assert(out.at(x, y) == FOREGROUND || out.at(x, y) == BACKGROUND);
            lemma_scan_lists(t, low, high, out, given, x + 1, y);
        }
    }
}

/// The order of discovery lists exactly the foreground pixels of the edge
/// map, each once.
pub proof fn lemma_traversal_lists_edges(t: Grid<u32>, low: u32, high: u32)
    requires
        t.wf(),
        t.width <= u32::MAX,
        t.height <= u32::MAX,
    ensures
        lists(edge_map(t, low, high), traversal(t, low, high)),
{
    lemma_blank_stable(t, low, high);
    let blank = Grid::filled(t.width, t.height, BACKGROUND);
    lemma_scan_lists(t, low, high, blank, Seq::empty(), 1, 1);
    assert(Seq::<(u32, u32)>::empty() + traversal(t, low, high) =~= traversal(t, low, high));
}

} // verus!
