//! Searching a route for a congested net: a thinned graph of two planes over the net's cells, a search
//! that joins its pins one at a time, and the Steiner tree of the paths found.

use vstd::prelude::*;
use vstd::string::StringExecFns;

use crate::cugr::access::{AccessPoint, AccessPointMap};
use crate::cugr::cost::{at_most, costs_add_up, Cost};
use crate::cugr::geo::{Interval, Point};
use crate::cugr::grid_graph::{coord, higher, lower, moved};
use crate::cugr::heap::{
    a_heap_loses_nothing_else, adding_keeps_the_heap, all_known, holds_at, is_heap, is_ranking, parent, popped, pushed, removing_keeps_the_heap, the_first_place_is_the_highest,
    HeapOrder, LibcxxHeap,
};
use crate::cugr::layers::{H, V};
use crate::cugr::steiner::{is_acyclic, no_layers, place_of, ranked, snode, snodes, walk_below, SNode, SteinerNode, SteinerTree};
use crate::grids::{fits, tdiv};

verus! {

/// Which rows and columns the thinned graph keeps: every `interval`-th from an offset that each net
/// moves on.
#[derive(Debug, Clone, Copy, PartialEq, Eq, Structural)]
pub struct SparseGrid {
    pub interval: Point,
    pub offset: Point,
}

impl SparseGrid {
    pub fn new(x_interval: i32, y_interval: i32, x_offset: i32, y_offset: i32) -> (g: SparseGrid)
        ensures
            g.interval == (Point { x: x_interval, y: y_interval }),
            g.offset == (Point { x: x_offset, y: y_offset }),
    {
        SparseGrid { interval: Point { x: x_interval, y: y_interval }, offset: Point { x: x_offset, y: y_offset } }
    }

    /// Moves each offset on by one, modulo its interval.
    pub fn step(&mut self)
        requires
            old(self).interval.x > 0,
            old(self).interval.y > 0,
            0 <= old(self).offset.x < i32::MAX,
            0 <= old(self).offset.y < i32::MAX,
        ensures
            final(self).interval == old(self).interval,
            final(self).offset.x == (old(self).offset.x + 1) % old(self).interval.x as int,
            final(self).offset.y == (old(self).offset.y + 1) % old(self).interval.y as int,
    {
        self.offset = Point { x: (self.offset.x + 1) % self.interval.x, y: (self.offset.y + 1) % self.interval.y };
    }
}

// ---- the lines kept ----

/// Whether numbers do not decrease.
pub open spec fn is_sorted(v: Seq<i32>) -> bool {
    forall|i: int, j: int| 0 <= i <= j < v.len() ==> v[i] <= v[j]
}

/// Whether numbers increase.
pub open spec fn is_rising(v: Seq<i32>) -> bool {
    forall|i: int, j: int| 0 <= i < j < v.len() ==> v[i] < v[j]
}

/// The `i`-th line kept.
pub open spec fn kept_line(interval: int, offset: int, i: int) -> int {
    i * interval + offset
}

/// Whether a line is kept: one every `interval` from the offset, below the size.
pub open spec fn is_kept(interval: int, offset: int, size: int, v: int) -> bool {
    exists|i: int| i >= 0 && v == #[trigger] kept_line(interval, offset, i) && v < size
}

/// Whether one of the first `n` lines kept.
spec fn is_kept_before(interval: int, offset: int, n: int, v: int) -> bool {
    exists|i: int| 0 <= i < n && v == #[trigger] kept_line(interval, offset, i)
}

/// Whether a value is one of the first `n` pins.
spec fn is_pin_before(pins: Seq<i32>, n: int, v: int) -> bool {
    exists|j: int| 0 <= j < n && #[trigger] pins[j] == v
}

/// A graph of two planes, one along x and one along y, over the lines kept. Neighbours in a plane are
/// linked, and so are the two planes at every point, which is free at a pin.
#[derive(Debug)]
pub struct SparseGraph<C> {
    /// The net's cells by x and then y.
    pub pseudo_pins: AccessPointMap,
    pub xs: Vec<i32>,
    pub ys: Vec<i32>,
    pub vertices: Vec<Vertex>,
    pub edges: Vec<Links>,
    pub costs: Vec<LinkCosts<C>>,
    /// The pin at each vertex, if any.
    pub vertex_pin: Vec<Option<usize>>,
    pub pin_vertex: Vec<usize>,
}

/// A vertex: its plane and its place.
#[derive(Debug, Clone, Copy, PartialEq, Eq, Structural)]
pub struct Vertex {
    pub plane: usize,
    pub x: i32,
    pub y: i32,
}

/// The next vertex along the plane, the one before, and the one across the planes.
#[derive(Debug, Clone, Copy, PartialEq, Eq)]
pub struct Links {
    pub next: Option<usize>,
    pub prev: Option<usize>,
    pub across: Option<usize>,
}

/// What each link costs.
#[derive(Debug, Clone, Copy)]
pub struct LinkCosts<C> {
    pub next: C,
    pub prev: C,
    pub across: C,
}

/// The lines kept of a dimension and those of its pins, in order, each once.
pub fn lines(pins: &Vec<i32>, interval: i32, offset: i32, size: i32) -> (out: Vec<i32>)
    requires
        interval > 0,
        is_sorted(pins@),
        forall|j: int| 0 <= j < pins@.len() ==> #[trigger] pins@[j] < size,
    ensures
        is_rising(out@),
        forall|v: i32| #[trigger] out@.contains(v) <==> pins@.contains(v) || is_kept(interval as int, offset as int, size as int, v as int),
{
    let mut out: Vec<i32> = Vec::new();
    let mut j: usize = 0;
    let mut line: i64 = offset as i64;
    let ghost mut i: int = 0;
    let ghost iv = interval as int;
    let ghost of = offset as int;
    assert(kept_line(iv, of, 0) == of) by (nonlinear_arith)
        requires
            kept_line(iv, of, 0) == 0 * iv + of,
    ;
    assert(forall|v: i32| !out@.contains(v));
    while line < size as i64
        invariant
            interval > 0,
            iv == interval,
            of == offset,
            is_sorted(pins@),
            forall|k: int| 0 <= k < pins@.len() ==> #[trigger] pins@[k] < size,
            i >= 0,
            line == kept_line(iv, of, i),
            i > 0 ==> line - interval < size,
            line >= offset,
            line <= 0x1_0000_0000,
            j <= pins@.len(),
            j > 0 ==> i > 0,
            forall|k: int| 0 <= k < j ==> #[trigger] pins@[k] <= line - interval,
            forall|k: int| j <= k < pins@.len() && i > 0 ==> #[trigger] pins@[k] > line - interval,
            is_rising(out@),
            out@.len() > 0 ==> i > 0,
            forall|k: int| 0 <= k < out@.len() ==> #[trigger] out@[k] <= line - interval,
            forall|v: i32| #[trigger] out@.contains(v) <==> is_pin_before(pins@, j as int, v as int) || is_kept_before(iv, of, i, v as int),
        decreases size - line + interval,
    {
        add_pins(pins, &mut out, &mut j, line, Ghost(iv), Ghost(of), Ghost(i));
        let ghost before = out@;
        out.push(line as i32);
        proof {
            assert forall|v: i32| #[trigger] out@.contains(v) <==> is_pin_before(pins@, j as int, v as int) || is_kept_before(iv, of, i + 1, v as int) by {
                lemma_contains_push(before, line as i32, v);
                lemma_kept_next(iv, of, i, v as int);
            }
            assert(kept_line(iv, of, i + 1) == line + interval) by (nonlinear_arith)
                requires
                    kept_line(iv, of, i + 1) == (i + 1) * iv + of,
                    line == i * iv + of,
                    iv == interval,
            ;
        }
        line = line + interval as i64;
        proof {
            i = i + 1;
        }
    }
    assert(kept_line(iv, of, i - 1) == line - interval) by (nonlinear_arith)
        requires
            kept_line(iv, of, i - 1) == (i - 1) * iv + of,
            line == kept_line(iv, of, i),
            kept_line(iv, of, i) == i * iv + of,
            iv == interval,
    ;
    add_pins(pins, &mut out, &mut j, line, Ghost(iv), Ghost(of), Ghost(i));
    proof {
        assert forall|v: i32| #[trigger] out@.contains(v) <==> pins@.contains(v) || is_kept(iv, of, size as int, v as int) by {
            lemma_kept_all(iv, of, size as int, i, v as int);
            if pins@.contains(v) {
                let k = choose|k: int| 0 <= k < pins@.len() && pins@[k] == v;
                assert(pins@[k] < size);
                assert(is_pin_before(pins@, j as int, v as int) || v == line);
                assert(k < j);
            }
            if is_pin_before(pins@, j as int, v as int) {
                let k = choose|k: int| 0 <= k < j && #[trigger] pins@[k] == v as int;
                assert(pins@[k] == v);
            }
        }
    }
    out
}

proof fn lemma_contains_push(s: Seq<i32>, x: i32, v: i32)
    ensures
        s.push(x).contains(v) <==> s.contains(v) || v == x,
{
    let t = s.push(x);
    if s.contains(v) {
        let k = choose|k: int| 0 <= k < s.len() && s[k] == v;
        assert(t[k] == v);
    }
    if v == x {
        assert(t[s.len() as int] == v);
    }
    if t.contains(v) {
        let k = choose|k: int| 0 <= k < t.len() && t[k] == v;
        if k < s.len() {
            assert(s[k] == v);
        }
    }
}

proof fn lemma_kept_next(iv: int, of: int, i: int, v: int)
    requires
        i >= 0,
    ensures
        is_kept_before(iv, of, i + 1, v) <==> is_kept_before(iv, of, i, v) || v == kept_line(iv, of, i),
{
    if is_kept_before(iv, of, i, v) {
        let k = choose|k: int| 0 <= k < i && v == #[trigger] kept_line(iv, of, k);
        assert(v == kept_line(iv, of, k));
    }
    if v == kept_line(iv, of, i) {
        assert(is_kept_before(iv, of, i + 1, v));
    }
}

proof fn lemma_kept_all(iv: int, of: int, size: int, n: int, v: int)
    requires
        iv > 0,
        n >= 0,
        kept_line(iv, of, n) >= size,
        n > 0 ==> kept_line(iv, of, n - 1) < size,
    ensures
        is_kept_before(iv, of, n, v) <==> is_kept(iv, of, size, v),
{
    if is_kept_before(iv, of, n, v) {
        let k = choose|k: int| 0 <= k < n && v == #[trigger] kept_line(iv, of, k);
        assert(kept_line(iv, of, k) <= kept_line(iv, of, n - 1)) by (nonlinear_arith)
            requires
                k <= n - 1,
                iv > 0,
                kept_line(iv, of, k) == k * iv + of,
                kept_line(iv, of, n - 1) == (n - 1) * iv + of,
        ;
        assert(is_kept(iv, of, size, v));
    }
    if is_kept(iv, of, size, v) {
        let k = choose|k: int| k >= 0 && v == #[trigger] kept_line(iv, of, k) && v < size;
        if k >= n {
            assert(kept_line(iv, of, k) >= kept_line(iv, of, n)) by (nonlinear_arith)
                requires
                    k >= n,
                    iv > 0,
                    kept_line(iv, of, k) == k * iv + of,
                    kept_line(iv, of, n) == n * iv + of,
            ;
        }
        assert(is_kept_before(iv, of, n, v));
    }
}

/// Adds the pins up to a line, but for repeats and one on the line itself.
fn add_pins(pins: &Vec<i32>, out: &mut Vec<i32>, j: &mut usize, line: i64, Ghost(iv): Ghost<int>, Ghost(of): Ghost<int>, Ghost(i): Ghost<int>)
    requires
        is_sorted(pins@),
        *old(j) <= pins@.len(),
        iv > 0,
        i >= 0,
        line == kept_line(iv, of, i),
        *old(j) > 0 ==> i > 0,
        forall|k: int| 0 <= k < *old(j) ==> #[trigger] pins@[k] <= line - iv,
        forall|k: int| *old(j) <= k < pins@.len() && i > 0 ==> #[trigger] pins@[k] > line - iv,
        is_rising(old(out)@),
        old(out)@.len() > 0 ==> i > 0,
        forall|k: int| 0 <= k < old(out)@.len() ==> #[trigger] old(out)@[k] <= line - iv,
        forall|v: i32| #[trigger] old(out)@.contains(v) <==> is_pin_before(pins@, *old(j) as int, v as int) || is_kept_before(iv, of, i, v as int),
    ensures
        *final(j) <= pins@.len(),
        forall|k: int| 0 <= k < *final(j) ==> #[trigger] pins@[k] <= line,
        forall|k: int| *final(j) <= k < pins@.len() ==> #[trigger] pins@[k] > line,
        is_rising(final(out)@),
        forall|k: int| 0 <= k < final(out)@.len() ==> #[trigger] final(out)@[k] < line,
        forall|v: i32| #[trigger] final(out)@.contains(v) <==> (is_pin_before(pins@, *final(j) as int, v as int) && v != line) || is_kept_before(iv, of, i, v as int),
{
    proof {
        assert forall|v: i32| is_pin_before(pins@, *j as int, v as int) implies v != line by {
            let k = choose|k: int| 0 <= k < *j && #[trigger] pins@[k] == v as int;
            assert(pins@[k] <= line - iv);
        }
    }
    while *j < pins.len() && pins[*j] as i64 <= line
        invariant
            is_sorted(pins@),
            *j <= pins@.len(),
            iv > 0,
            i >= 0,
            forall|k: int| 0 <= k < *j ==> #[trigger] pins@[k] <= line,
            forall|k: int| *j <= k < pins@.len() && i > 0 ==> #[trigger] pins@[k] > line - iv,
            is_rising(out@),
            forall|k: int| 0 <= k < out@.len() ==> #[trigger] out@[k] < line,
            forall|k: int, m: int| 0 <= k < out@.len() && *j <= m < pins@.len() ==> #[trigger] out@[k] <= #[trigger] pins@[m],
            forall|v: i32| #[trigger] out@.contains(v) <==> (is_pin_before(pins@, *j as int, v as int) && v != line) || is_kept_before(iv, of, i, v as int),
        decreases pins@.len() - *j,
    {
        let pin: i32 = pins[*j];
        let n: usize = out.len();
        let repeat = n > 0 && out[n - 1] == pin;
        let ghost before = out@;
        let ghost j0 = *j as int;
        if !repeat && pin as i64 != line {
            proof {
                assert forall|k: int| 0 <= k < out@.len() implies out@[k] < pin by {
                    assert(out@[k] <= pins@[j0]);
                    if k < n - 1 {
                        assert(out@[k] < out@[n - 1]);
                        assert(out@[n - 1] <= pins@[j0]);
                    }
                }
            }
            out.push(pin);
        }
        *j = *j + 1;
        proof {
            assert forall|v: i32| #[trigger] out@.contains(v) <==> (is_pin_before(pins@, *j as int, v as int) && v != line) || is_kept_before(iv, of, i, v as int) by {
                lemma_contains_push(before, pin, v);
                assert(is_pin_before(pins@, j0 + 1, v as int) <==> is_pin_before(pins@, j0, v as int) || v == pin) by {
                    if is_pin_before(pins@, j0, v as int) {
                        let k = choose|k: int| 0 <= k < j0 && #[trigger] pins@[k] == v as int;
                        assert(pins@[k] == v as int);
                    }
                    if v == pin {
                        assert(pins@[j0] == v as int);
                    }
                }
                if repeat {
                    assert(before[n - 1] == pin);
                    assert(before.contains(pin));
                }
            }
            assert forall|k: int, m: int| 0 <= k < out@.len() && *j <= m < pins@.len() implies #[trigger] out@[k] <= #[trigger] pins@[m] by {
                assert(pins@[j0] <= pins@[m]);
            }
        }
    }
    proof {
        assert forall|k: int| *j <= k < pins@.len() implies #[trigger] pins@[k] > line by {
            assert(pins@[*j as int] <= pins@[k]);
        }
    }
}

// ---- the thinned graph ----

/// What the edges of the two planes cost, by plane, x and y.
pub type CostView<C> = Vec<Vec<Vec<C>>>;

/// Whether a view covers both planes of a grid.
pub open spec fn view_covers<C>(view: CostView<C>, x_size: int, y_size: int) -> bool {
    &&& view@.len() == 2
    &&& forall|d: int| 0 <= d < 2 ==> (#[trigger] view@[d])@.len() == x_size
    &&& forall|d: int, x: int| 0 <= d < 2 && 0 <= x < x_size ==> (#[trigger] view@[d]@[x])@.len() == y_size
}

/// The cost of a straight run from `lo` up to `hi`, in ascending order.
pub open spec fn run_cost<C: Cost>(view: CostView<C>, zero: C, d: int, p: Point, lo: int, hi: int) -> C
    decreases hi - lo,
{
    if hi <= lo {
        zero
    } else {
        let q = moved(p, d, hi - 1);
        run_cost(view, zero, d, p, lo, hi - 1).sum(view@[d]@[q.x as int]@[q.y as int])
    }
}

/// The cost of the straight run from one point to another: along x where both have the same y, else
/// along y.
pub open spec fn run_sum<C: Cost>(view: CostView<C>, zero: C, u: Point, v: Point) -> C {
    let d = if u.y == v.y { 0int } else { 1int };
    run_cost(view, zero, d, u, lower(coord(u, d), coord(v, d)), higher(coord(u, d), coord(v, d)))
}

/// The cost of the straight run from one point to another, in ascending order.
pub fn view_sum<C: Cost>(view: &CostView<C>, zero: C, u: Point, v: Point, x_size: usize, y_size: usize) -> (r: C)
    requires
        view_covers(*view, x_size as int, y_size as int),
        0 <= u.x < x_size,
        0 <= u.y < y_size,
        0 <= v.x <= x_size,
        0 <= v.y <= y_size,
    ensures
        r == run_sum(*view, zero, u, v),
{
    let d: usize = if u.y == v.y { 0 } else { 1 };
    let (a, b) = (u.get(d), v.get(d));
    let (lo, hi) = if a < b { (a, b) } else { (b, a) };
    let mut r = zero;
    let mut c: i32 = lo;
    while c < hi
        invariant
            view_covers(*view, x_size as int, y_size as int),
            0 <= u.x < x_size,
            0 <= u.y < y_size,
            0 <= v.x <= x_size,
            0 <= v.y <= y_size,
            d == (if u.y == v.y { 0int } else { 1int }),
            lo == lower(coord(u, d as int), coord(v, d as int)),
            hi == higher(coord(u, d as int), coord(v, d as int)),
            0 <= lo <= c <= hi,
            r == run_cost(*view, zero, d as int, u, lo as int, c as int),
        decreases hi - c,
    {
        let mut q = u;
        q.set(d, c);
        assert(q == moved(u, d as int, c as int));
        assert(view@[d as int]@.len() == x_size);
        assert(view@[d as int]@[q.x as int]@.len() == y_size);
        r = r.plus(view[d][q.x as usize][q.y as usize]);
        c += 1;
    }
    r
}

/// The place of a vertex: its plane, row and column.
pub open spec fn plane_of(nx: int, ny: int, u: int) -> int {
    u / (nx * ny)
}

pub open spec fn row_of(nx: int, ny: int, u: int) -> int {
    (u % (nx * ny)) / nx
}

pub open spec fn column_of(nx: int, ny: int, u: int) -> int {
    (u % (nx * ny)) % nx
}

pub open spec fn vertex_at(xs: Seq<i32>, ys: Seq<i32>, u: int) -> Vertex {
    let (nx, ny) = (xs.len() as int, ys.len() as int);
    Vertex { plane: plane_of(nx, ny, u) as usize, x: xs[column_of(nx, ny, u)], y: ys[row_of(nx, ny, u)] }
}

/// The point of a row and a column.
pub open spec fn point_at(xs: Seq<i32>, ys: Seq<i32>, xi: int, yi: int) -> Point {
    Point { x: xs[xi], y: ys[yi] }
}

/// The links of a vertex as places.
pub struct LinkPlaces {
    pub next: Option<int>,
    pub prev: Option<int>,
    pub across: Option<int>,
}

/// The links of a vertex: its neighbours along x in the first plane and along y in the second, and the
/// vertex at the same point of the other plane.
pub open spec fn links_at(nx: int, ny: int, u: int) -> LinkPlaces {
    let (xi, yi) = (column_of(nx, ny, u), row_of(nx, ny, u));
    if plane_of(nx, ny, u) == 0 {
        LinkPlaces { next: if xi + 1 < nx { Some(u + 1) } else { None }, prev: if xi > 0 { Some(u - 1) } else { None }, across: Some(u + nx * ny) }
    } else {
        LinkPlaces { next: if yi + 1 < ny { Some(u + nx) } else { None }, prev: if yi > 0 { Some(u - nx) } else { None }, across: Some(u - nx * ny) }
    }
}

pub open spec fn as_link(p: Option<usize>) -> Option<int> {
    match p {
        Some(k) => Some(k as int),
        None => None,
    }
}

pub open spec fn link_places(l: Links) -> LinkPlaces {
    LinkPlaces { next: as_link(l.next), prev: as_link(l.prev), across: as_link(l.across) }
}

/// What a graph is thinned from.
pub struct Source<C> {
    pub pins: Seq<AccessPoint>,
    pub view: CostView<C>,
    pub via_cost: C,
    pub zero: C,
}

/// What the links of a vertex cost: the run to the neighbour, and across the planes a via, free at a pin.
pub open spec fn costs_at<C: Cost>(s: Source<C>, xs: Seq<i32>, ys: Seq<i32>, u: int) -> LinkCosts<C> {
    let (nx, ny) = (xs.len() as int, ys.len() as int);
    let (xi, yi) = (column_of(nx, ny, u), row_of(nx, ny, u));
    let p = point_at(xs, ys, xi, yi);
    let l = links_at(nx, ny, u);
    let first = plane_of(nx, ny, u) == 0;
    LinkCosts {
        next: if l.next is Some { run_sum(s.view, s.zero, p, if first { point_at(xs, ys, xi + 1, yi) } else { point_at(xs, ys, xi, yi + 1) }) } else { s.zero },
        prev: if l.prev is Some { run_sum(s.view, s.zero, if first { point_at(xs, ys, xi - 1, yi) } else { point_at(xs, ys, xi, yi - 1) }, p) } else { s.zero },
        across: if place_of(s.pins, p, 0) is Some { s.zero } else { s.via_cost },
    }
}

/// The pin at a vertex: only in the first plane.
pub open spec fn pin_at(pins: Seq<AccessPoint>, xs: Seq<i32>, ys: Seq<i32>, u: int) -> Option<int> {
    let (nx, ny) = (xs.len() as int, ys.len() as int);
    if plane_of(nx, ny, u) == 0 { place_of(pins, point_at(xs, ys, column_of(nx, ny, u), row_of(nx, ny, u)), 0) } else { None }
}

/// Whether lines are those kept of a dimension and of its pins.
pub open spec fn are_lines(lines: Seq<i32>, interval: int, offset: int, size: int, is_pin: spec_fn(i32) -> bool) -> bool {
    &&& is_rising(lines)
    &&& forall|v: i32| #[trigger] lines.contains(v) <==> is_pin(v) || is_kept(interval, offset, size, v as int)
}

/// Whether a pin stands at an x, or at a y.
pub open spec fn pin_x(pins: Seq<AccessPoint>) -> spec_fn(i32) -> bool {
    |v: i32| exists|k: int| 0 <= k < pins.len() && (#[trigger] pins[k]).p.x == v
}

pub open spec fn pin_y(pins: Seq<AccessPoint>) -> spec_fn(i32) -> bool {
    |v: i32| exists|k: int| 0 <= k < pins.len() && (#[trigger] pins[k]).p.y == v
}

/// Whether a graph is the thinned one.
pub open spec fn is_sparse<C: Cost>(s: Source<C>, grid: SparseGrid, x_size: int, y_size: int, g: SparseGraph<C>) -> bool {
    let total = 2 * (g.xs@.len() * g.ys@.len());
    &&& g.pseudo_pins@ == s.pins
    &&& are_lines(g.xs@, grid.interval.x as int, grid.offset.x as int, x_size, pin_x(s.pins))
    &&& are_lines(g.ys@, grid.interval.y as int, grid.offset.y as int, y_size, pin_y(s.pins))
    &&& g.vertices@.len() == total
    &&& g.edges@.len() == total
    &&& g.costs@.len() == total
    &&& g.vertex_pin@.len() == total
    &&& forall|u: int| 0 <= u < total ==> #[trigger] g.vertices@[u] == vertex_at(g.xs@, g.ys@, u)
    &&& forall|u: int| 0 <= u < total ==> link_places(#[trigger] g.edges@[u]) == links_at(g.xs@.len() as int, g.ys@.len() as int, u)
    &&& forall|u: int| 0 <= u < total ==> #[trigger] g.costs@[u] == costs_at(s, g.xs@, g.ys@, u)
    &&& forall|u: int| 0 <= u < total ==> as_link(#[trigger] g.vertex_pin@[u]) == pin_at(s.pins, g.xs@, g.ys@, u)
    &&& g.pin_vertex@.len() == s.pins.len()
    &&& forall|k: int|
        0 <= k < s.pins.len() ==> (#[trigger] g.pin_vertex@[k]) < total && g.vertices@[g.pin_vertex@[k] as int] == (Vertex { plane: 0, x: s.pins[k].p.x, y: s.pins[k].p.y })
}

/// Whether a source fits a grid.
pub open spec fn source_fits<C>(s: Source<C>, grid: SparseGrid, x_size: int, y_size: int) -> bool {
    &&& 0 <= x_size <= i32::MAX
    &&& 0 <= y_size <= i32::MAX
    &&& 2 * (x_size * y_size) <= usize::MAX
    &&& grid.interval.x > 0
    &&& grid.interval.y > 0
    &&& grid.offset.x >= 0
    &&& grid.offset.y >= 0
    &&& view_covers(s.view, x_size, y_size)
    &&& forall|k: int| 0 <= k < s.pins.len() ==> 0 <= (#[trigger] s.pins[k]).p.x < x_size && 0 <= s.pins[k].p.y < y_size
}

/// Numbers in order.
fn in_order(v: &Vec<i32>) -> (r: Vec<i32>)
    ensures
        is_sorted(r@),
        r@.len() == v@.len(),
        forall|k: int| 0 <= k < r@.len() ==> v@.contains(#[trigger] r@[k]),
        forall|k: int| 0 <= k < v@.len() ==> r@.contains(#[trigger] v@[k]),
{
    let mut keys: Vec<i64> = Vec::new();
    let mut k: usize = 0;
    while k < v.len()
        invariant
            k <= v@.len(),
            keys@.len() == k,
            forall|j: int| 0 <= j < k ==> #[trigger] keys@[j] == v@[j],
        decreases v@.len() - k,
    {
        keys.push(v[k] as i64);
        k += 1;
    }
    let p = crate::sorting::order_by(&keys);
    let total: usize = v.len();
    let mut r: Vec<i32> = Vec::new();
    let mut k: usize = 0;
    while k < p.len()
        invariant
            k <= p@.len(),
            p@.len() == v@.len() == keys@.len(),
            crate::sorting::is_order(keys@, p@),
            r@.len() == k,
            forall|j: int| 0 <= j < k ==> #[trigger] r@[j] == v@[p@[j] as int],
        decreases p@.len() - k,
    {
        assert(p@[k as int] < v@.len());
        r.push(v[p[k]]);
        k += 1;
    }
    proof {
        assert forall|i: int, j: int| 0 <= i <= j < r@.len() implies r@[i] <= r@[j] by {
            assert(r@[i] == v@[p@[i] as int] && r@[j] == v@[p@[j] as int]);
            assert(p@[i] < keys@.len() && p@[j] < keys@.len());
            if i < j {
                assert(crate::sorting::comes_before(keys@, p@[i], p@[j]));
            }
        }
        assert forall|k: int| 0 <= k < r@.len() implies v@.contains(#[trigger] r@[k]) by {
            assert(p@[k] < v@.len());
            assert(r@[k] == v@[p@[k] as int]);
        }
        assert forall|k: int| 0 <= k < v@.len() implies r@.contains(#[trigger] v@[k]) by {
            crate::sorting::an_order_lists_every_place(keys@, p@, k);
            let j = choose|j: int| 0 <= j < p@.len() && p@[j] == k as usize;
            assert(k <= total);
            assert(r@[j] == v@[p@[j] as int]);
        }
    }
    r
}

proof fn lemma_rising_fits(v: Seq<i32>, size: int, k: int)
    requires
        is_rising(v),
        0 <= k < v.len(),
        v[0] >= 0,
    ensures
        v[k] >= k,
    decreases k,
{
    if k > 0 {
        lemma_rising_fits(v, size, k - 1);
        assert(v[k - 1] < v[k]);
    }
}

proof fn lemma_lines_fit(v: Seq<i32>, interval: int, offset: int, size: int, is_pin: spec_fn(i32) -> bool)
    requires
        are_lines(v, interval, offset, size, is_pin),
        interval > 0,
        offset >= 0,
        size >= 0,
        forall|x: i32| #[trigger] is_pin(x) ==> 0 <= x < size,
    ensures
        v.len() <= size,
        forall|k: int| 0 <= k < v.len() ==> 0 <= #[trigger] v[k] < size,
{
    assert forall|k: int| 0 <= k < v.len() implies 0 <= #[trigger] v[k] < size by {
        assert(v.contains(v[k]));
        if !is_pin(v[k]) {
            let i = choose|i: int| i >= 0 && v[k] as int == #[trigger] kept_line(interval, offset, i) && (v[k] as int) < size;
            assert(i * interval >= 0) by (nonlinear_arith)
                requires
                    i >= 0,
                    interval > 0,
            ;
        }
    }
    if v.len() > 0 {
        lemma_rising_fits(v, size, v.len() - 1);
    }
}

proof fn lemma_place_range(pins: Seq<AccessPoint>, p: Point, k: int)
    requires
        0 <= k,
    ensures
        place_of(pins, p, k) matches Some(j) ==> k <= j < pins.len() && pins[j].p == p,
    decreases pins.len() - k,
{
    if k < pins.len() && pins[k].p != p {
        lemma_place_range(pins, p, k + 1);
    }
}

proof fn lemma_decode(nx: int, ny: int, u: int)
    requires
        nx > 0,
        ny > 0,
        0 <= u < 2 * (nx * ny),
    ensures
        0 <= plane_of(nx, ny, u) <= 1,
        0 <= row_of(nx, ny, u) < ny,
        0 <= column_of(nx, ny, u) < nx,
        plane_of(nx, ny, u) == 0 <==> u < nx * ny,
        nx * ny > 0,
        u % (nx * ny) == row_of(nx, ny, u) * nx + column_of(nx, ny, u),
        plane_of(nx, ny, u) == 0 ==> u % (nx * ny) == u,
        plane_of(nx, ny, u) == 1 ==> u % (nx * ny) == u - nx * ny,
{
    let a = nx * ny;
    assert(a > 0) by (nonlinear_arith)
        requires
            nx > 0,
            ny > 0,
            a == nx * ny,
    ;
    let r = u % a;
    assert(0 <= u / a <= 1 && 0 <= r < a && u == a * (u / a) + r) by (nonlinear_arith)
        requires
            a > 0,
            0 <= u < 2 * a,
            r == u % a,
    ;
    assert(0 <= r / nx < ny && 0 <= r % nx < nx && r == (r / nx) * nx + r % nx) by (nonlinear_arith)
        requires
            nx > 0,
            0 <= r < nx * ny,
    ;
    if u / a == 0 {
        assert(u == r) by (nonlinear_arith)
            requires
                u == a * (u / a) + r,
                u / a == 0,
        ;
    } else {
        assert(u == a + r) by (nonlinear_arith)
            requires
                u == a * (u / a) + r,
                u / a == 1,
        ;
    }
}

proof fn lemma_encode(nx: int, ny: int, xi: int, yi: int)
    requires
        0 <= xi < nx,
        0 <= yi < ny,
    ensures
        0 <= yi * nx + xi < nx * ny,
        plane_of(nx, ny, yi * nx + xi) == 0,
        row_of(nx, ny, yi * nx + xi) == yi,
        column_of(nx, ny, yi * nx + xi) == xi,
{
    let u = yi * nx + xi;
    assert(0 <= u < nx * ny) by (nonlinear_arith)
        requires
            0 <= xi < nx,
            0 <= yi < ny,
            u == yi * nx + xi,
    ;
    lemma_decode(nx, ny, u);
    let (y2, x2) = (row_of(nx, ny, u), column_of(nx, ny, u));
    assert(y2 == yi && x2 == xi) by (nonlinear_arith)
        requires
            yi * nx + xi == y2 * nx + x2,
            0 <= xi < nx,
            0 <= x2 < nx,
    ;
}

fn index_of(lines: &Vec<i32>, v: i32) -> (k: usize)
    requires
        lines@.contains(v),
    ensures
        k < lines@.len(),
        lines@[k as int] == v,
{
    let total: usize = lines.len();
    let mut k: usize = 0;
    while lines[k] != v
        invariant
            lines@.contains(v),
            k < lines@.len() == total,
            forall|j: int| 0 <= j < k ==> lines@[j] != v,
        decreases lines@.len() - k,
    {
        proof {
            let j = choose|j: int| 0 <= j < lines@.len() && lines@[j] == v;
            assert(j > k);
        }
        k += 1;
    }
    k
}

impl<C: Cost> SparseGraph<C> {
    /// The thinned graph over a net's cells.
    #[verifier::rlimit(60)]
    pub fn init(selected: &AccessPointMap, view: &CostView<C>, grid: &SparseGrid, x_size: usize, y_size: usize, unit_via_cost: C, zero: C) -> (g: SparseGraph<C>)
        requires
            source_fits(Source { pins: selected@, view: *view, via_cost: unit_via_cost, zero }, *grid, x_size as int, y_size as int),
            selected@.len() > 0,
        ensures
            is_sparse(Source { pins: selected@, view: *view, via_cost: unit_via_cost, zero }, *grid, x_size as int, y_size as int, g),
    {
        let ghost s = Source { pins: selected@, view: *view, via_cost: unit_via_cost, zero };
        let pseudo_pins = crate::vecs::copy_vec(selected);
        let mut pxs: Vec<i32> = Vec::new();
        let mut pys: Vec<i32> = Vec::new();
        let mut k: usize = 0;
        while k < selected.len()
            invariant
                k <= selected@.len(),
                pxs@.len() == k,
                pys@.len() == k,
                forall|j: int| 0 <= j < k ==> #[trigger] pxs@[j] == selected@[j].p.x,
                forall|j: int| 0 <= j < k ==> #[trigger] pys@[j] == selected@[j].p.y,
            decreases selected@.len() - k,
        {
            pxs.push(selected[k].p.x);
            pys.push(selected[k].p.y);
            k += 1;
        }
        let sorted_xs = in_order(&pxs);
        let sorted_ys = in_order(&pys);
        proof {
            assert forall|j: int| 0 <= j < sorted_xs@.len() implies #[trigger] sorted_xs@[j] < x_size by {
                assert(pxs@.contains(sorted_xs@[j]));
                let i = choose|i: int| 0 <= i < pxs@.len() && pxs@[i] == sorted_xs@[j];
                assert(s.pins[i].p.x < x_size);
            }
            assert forall|j: int| 0 <= j < sorted_ys@.len() implies #[trigger] sorted_ys@[j] < y_size by {
                assert(pys@.contains(sorted_ys@[j]));
                let i = choose|i: int| 0 <= i < pys@.len() && pys@[i] == sorted_ys@[j];
                assert(s.pins[i].p.y < y_size);
            }
        }
        let xs = lines(&sorted_xs, grid.interval.x, grid.offset.x, x_size as i32);
        let ys = lines(&sorted_ys, grid.interval.y, grid.offset.y, y_size as i32);
        let ghost px = pin_x(selected@);
        let ghost py = pin_y(selected@);
        proof {
            assert forall|v: i32| #[trigger] xs@.contains(v) <==> px(v) || is_kept(grid.interval.x as int, grid.offset.x as int, x_size as int, v as int) by {
                if sorted_xs@.contains(v) {
                    let j = choose|j: int| 0 <= j < sorted_xs@.len() && sorted_xs@[j] == v;
                    assert(pxs@.contains(sorted_xs@[j]));
                    let i = choose|i: int| 0 <= i < pxs@.len() && pxs@[i] == v;
                    assert(selected@[i].p.x == v);
                }
                if px(v) {
                    let i = choose|i: int| 0 <= i < selected@.len() && (#[trigger] selected@[i]).p.x == v;
                    assert(pxs@[i] == v);
                    assert(sorted_xs@.contains(pxs@[i]));
                }
            }
            assert forall|v: i32| #[trigger] ys@.contains(v) <==> py(v) || is_kept(grid.interval.y as int, grid.offset.y as int, y_size as int, v as int) by {
                if sorted_ys@.contains(v) {
                    let j = choose|j: int| 0 <= j < sorted_ys@.len() && sorted_ys@[j] == v;
                    assert(pys@.contains(sorted_ys@[j]));
                    let i = choose|i: int| 0 <= i < pys@.len() && pys@[i] == v;
                    assert(selected@[i].p.y == v);
                }
                if py(v) {
                    let i = choose|i: int| 0 <= i < selected@.len() && (#[trigger] selected@[i]).p.y == v;
                    assert(pys@[i] == v);
                    assert(sorted_ys@.contains(pys@[i]));
                }
            }
            assert forall|v: i32| #[trigger] px(v) implies 0 <= v < x_size by {
                let i = choose|i: int| 0 <= i < selected@.len() && (#[trigger] selected@[i]).p.x == v;
                assert(0 <= s.pins[i].p.x < x_size);
            }
            assert forall|v: i32| #[trigger] py(v) implies 0 <= v < y_size by {
                let i = choose|i: int| 0 <= i < selected@.len() && (#[trigger] selected@[i]).p.y == v;
                assert(0 <= s.pins[i].p.y < y_size);
            }
            lemma_lines_fit(xs@, grid.interval.x as int, grid.offset.x as int, x_size as int, px);
            lemma_lines_fit(ys@, grid.interval.y as int, grid.offset.y as int, y_size as int, py);
            assert(selected@[0].p.x == selected@[0].p.x && selected@[0].p.y == selected@[0].p.y);
            assert(px(selected@[0].p.x) && py(selected@[0].p.y));
            assert(xs@.contains(selected@[0].p.x) && ys@.contains(selected@[0].p.y));
        }
        let nx: usize = xs.len();
        let ny: usize = ys.len();
        assert(nx * ny <= x_size * y_size) by (nonlinear_arith)
            requires
                nx <= x_size,
                ny <= y_size,
        ;
        assert(nx * ny > 0) by (nonlinear_arith)
            requires
                nx > 0,
                ny > 0,
        ;
        let area: usize = nx * ny;
        let total: usize = 2 * area;
        let mut vertices: Vec<Vertex> = Vec::new();
        let mut edges: Vec<Links> = Vec::new();
        let mut costs: Vec<LinkCosts<C>> = Vec::new();
        let mut vertex_pin: Vec<Option<usize>> = Vec::new();
        let mut u: usize = 0;
        while u < total
            invariant
                s == (Source { pins: selected@, view: *view, via_cost: unit_via_cost, zero }),
                view_covers(*view, x_size as int, y_size as int),
                nx == xs@.len() > 0,
                ny == ys@.len() > 0,
                area == nx * ny,
                area > 0,
                total == 2 * area,
                x_size <= i32::MAX,
                y_size <= i32::MAX,
                forall|k: int| 0 <= k < nx ==> 0 <= #[trigger] xs@[k] < x_size,
                forall|k: int| 0 <= k < ny ==> 0 <= #[trigger] ys@[k] < y_size,
                u <= total,
                vertices@.len() == u,
                edges@.len() == u,
                costs@.len() == u,
                vertex_pin@.len() == u,
                forall|k: int| 0 <= k < u ==> #[trigger] vertices@[k] == vertex_at(xs@, ys@, k),
                forall|k: int| 0 <= k < u ==> link_places(#[trigger] edges@[k]) == links_at(nx as int, ny as int, k),
                forall|k: int| 0 <= k < u ==> #[trigger] costs@[k] == costs_at(s, xs@, ys@, k),
                forall|k: int| 0 <= k < u ==> as_link(#[trigger] vertex_pin@[k]) == pin_at(selected@, xs@, ys@, k),
            decreases total - u,
        {
            proof {
                lemma_decode(nx as int, ny as int, u as int);
            }
            let plane: usize = u / area;
            let within: usize = u % area;
            let yi: usize = within / nx;
            let xi: usize = within % nx;
            assert(plane == plane_of(nx as int, ny as int, u as int));
            assert(yi == row_of(nx as int, ny as int, u as int));
            assert(xi == column_of(nx as int, ny as int, u as int));
            let (x, y) = (xs[xi], ys[yi]);
            let p = Point { x, y };
            vertices.push(Vertex { plane, x, y });
            let mut l = Links { next: None, prev: None, across: None };
            let mut c = LinkCosts { next: zero, prev: zero, across: unit_via_cost };
            proof {
                let (a, n, r, q) = (area as int, nx as int, yi as int, xi as int);
                assert(r * n + q < a && r * n >= 0) by (nonlinear_arith)
                    requires
                        0 <= r < ny,
                        0 <= q < n,
                        a == n * ny,
                ;
                if r > 0 {
                    assert(r * n >= n) by (nonlinear_arith)
                        requires
                            r >= 1,
                            n > 0,
                    ;
                }
                if r + 1 < ny {
                    assert(r * n + n + q < a) by (nonlinear_arith)
                        requires
                            r + 1 < ny,
                            0 <= q < n,
                            a == n * ny,
                    ;
                }
            }
            if plane == 0 {
                if xi + 1 < nx {
                    l.next = Some(u + 1);
                    c.next = view_sum(view, zero, p, Point { x: xs[xi + 1], y }, x_size, y_size);
                }
                if xi > 0 {
                    l.prev = Some(u - 1);
                    c.prev = view_sum(view, zero, Point { x: xs[xi - 1], y }, p, x_size, y_size);
                }
                l.across = Some(u + area);
            } else {
                if yi + 1 < ny {
                    l.next = Some(u + nx);
                    c.next = view_sum(view, zero, p, Point { x, y: ys[yi + 1] }, x_size, y_size);
                }
                if yi > 0 {
                    l.prev = Some(u - nx);
                    c.prev = view_sum(view, zero, Point { x, y: ys[yi - 1] }, p, x_size, y_size);
                }
                l.across = Some(u - area);
            }
            let at = crate::cugr::steiner::find_place(selected, p);
            match at {
                Some(_) => {
                    c.across = zero;
                },
                None => {},
            }
            edges.push(l);
            costs.push(c);
            vertex_pin.push(if plane == 0 { at } else { None });
            u += 1;
        }
        let mut pin_vertex: Vec<usize> = Vec::new();
        let mut k: usize = 0;
        while k < selected.len()
            invariant
                nx == xs@.len(),
                ny == ys@.len(),
                area == nx * ny,
                total == 2 * area,
                vertices@.len() == total,
                forall|u: int| 0 <= u < total ==> #[trigger] vertices@[u] == vertex_at(xs@, ys@, u),
                px == pin_x(selected@),
                py == pin_y(selected@),
                forall|v: i32| #[trigger] xs@.contains(v) <==> px(v) || is_kept(grid.interval.x as int, grid.offset.x as int, x_size as int, v as int),
                forall|v: i32| #[trigger] ys@.contains(v) <==> py(v) || is_kept(grid.interval.y as int, grid.offset.y as int, y_size as int, v as int),
                k <= selected@.len(),
                pin_vertex@.len() == k,
                forall|j: int|
                    0 <= j < k ==> (#[trigger] pin_vertex@[j]) < total && vertices@[pin_vertex@[j] as int] == (Vertex { plane: 0, x: selected@[j].p.x, y: selected@[j].p.y }),
            decreases selected@.len() - k,
        {
            let p = selected[k].p;
            assert(px(p.x)) by {
                assert(selected@[k as int].p.x == p.x);
            }
            assert(py(p.y)) by {
                assert(selected@[k as int].p.y == p.y);
            }
            assert(xs@.contains(p.x) && ys@.contains(p.y));
            let xi: usize = index_of(&xs, p.x);
            let yi: usize = index_of(&ys, p.y);
            proof {
                lemma_encode(nx as int, ny as int, xi as int, yi as int);
                assert(yi * nx <= yi * nx + xi) by (nonlinear_arith)
                    requires
                        xi >= 0,
                ;
            }
            let u: usize = yi * nx + xi;
            assert(vertices@[u as int] == vertex_at(xs@, ys@, u as int));
            pin_vertex.push(u);
            k += 1;
        }
        SparseGraph { pseudo_pins, xs, ys, vertices, edges, costs, vertex_pin, pin_vertex }
    }
}

// ---- the search ----

/// A state of the search: its cost, its vertex, and the state that it comes from.
#[derive(Debug, Clone, Copy)]
pub struct Solution<C> {
    pub cost: C,
    pub vertex: usize,
    pub prev: Option<usize>,
}

/// All states of a search, each after the one that it comes from.
#[derive(Debug)]
pub struct Arena<C> {
    pub v: Vec<Solution<C>>,
}

/// A search that does not come to an end.
#[derive(Debug, Clone, Copy, PartialEq, Eq, Structural)]
pub enum MazeError {
    /// A pin cannot be reached.
    NoConnectedPin,
    /// The end of a path is not at a pin.
    NoPinAtEnd,
    /// No path starts at the first pin.
    NoRoot,
    /// Two nodes of the tree stand at one place.
    DuplicatedNodes,
    /// The paths do not make a tree.
    NotATree,
}

/// Whether two costs are the same to the order.
pub open spec fn same_cost<C: Cost>(a: C, b: C) -> bool {
    !a.below(b) && !b.below(a)
}

/// How states rank: the dearer is below, and of equals the one at the later vertex.
pub open spec fn ranks<C: Cost>(arena: Seq<Solution<C>>) -> spec_fn(usize, usize) -> bool {
    |a: usize, b: usize|
        {
            let (x, y) = (arena[a as int], arena[b as int]);
            if same_cost(x.cost, y.cost) { x.vertex > y.vertex } else { y.cost.below(x.cost) }
        }
}

impl<C: Cost> HeapOrder for Arena<C> {
    open spec fn knows(&self, a: usize) -> bool {
        a < self.v@.len()
    }

    open spec fn order(&self) -> spec_fn(usize, usize) -> bool {
        ranks(self.v@)
    }

    fn is_below(&self, a: usize, b: usize) -> (r: bool) {
        let (x, y) = (&self.v[a], &self.v[b]);
        if x.cost.is_below(y.cost) || y.cost.is_below(x.cost) {
            y.cost.is_below(x.cost)
        } else {
            x.vertex > y.vertex
        }
    }
}

/// Whether a graph's parts fit together.
pub open spec fn graph_ok<C>(g: SparseGraph<C>) -> bool {
    let n = g.vertices@.len();
    &&& g.edges@.len() == n
    &&& g.costs@.len() == n
    &&& g.vertex_pin@.len() == n
    &&& g.pin_vertex@.len() == g.pseudo_pins@.len()
    &&& forall|u: int|
        #![trigger g.edges@[u]]
        0 <= u < n ==> (g.edges@[u].next matches Some(v) ==> v < n) && (g.edges@[u].prev matches Some(v) ==> v < n) && (g.edges@[u].across matches Some(v) ==> v < n)
    &&& forall|u: int| 0 <= u < n ==> ((#[trigger] g.vertex_pin@[u]) matches Some(k) ==> k < g.pseudo_pins@.len())
    &&& forall|k: int| 0 <= k < g.pin_vertex@.len() ==> #[trigger] g.pin_vertex@[k] < n
}

/// What a search holds: its states, the heap of those to explore, and the least cost of every vertex.
#[verifier::ext_equal]
pub struct State<C> {
    pub arena: Seq<Solution<C>>,
    pub heap: Seq<usize>,
    pub min: Seq<C>,
}

/// A search with a state added.
pub open spec fn with_state<C: Cost>(s: State<C>, n: Solution<C>) -> State<C> {
    let arena = s.arena.push(n);
    let v = n.vertex as int;
    State { arena, heap: pushed(ranks(arena), s.heap, s.arena.len() as usize), min: s.min.update(v, if n.cost.below(s.min[v]) { n.cost } else { s.min[v] }) }
}

/// The `e`-th link of a vertex and its cost.
pub open spec fn link_of<C>(g: SparseGraph<C>, u: int, e: int) -> (Option<usize>, C) {
    let (l, c) = (g.edges@[u], g.costs@[u]);
    if e == 0 {
        (l.next, c.next)
    } else if e == 1 {
        (l.prev, c.prev)
    } else {
        (l.across, c.across)
    }
}

/// The vertex that a state comes from.
pub open spec fn vertex_before<C>(arena: Seq<Solution<C>>, id: int) -> Option<usize> {
    match arena[id].prev {
        Some(p) => Some(arena[p as int].vertex),
        None => None,
    }
}

/// A search after the first `n` links of a state are explored: not back to where it comes from, and only
/// where that is strictly cheaper.
pub open spec fn explored<C: Cost>(g: SparseGraph<C>, s: State<C>, id: int, n: int) -> State<C>
    decreases n,
{
    if n <= 0 {
        s
    } else {
        let t = explored(g, s, id, n - 1);
        let from = s.arena[id];
        let (target, link_cost) = link_of(g, from.vertex as int, n - 1);
        match target {
            Some(v) => if vertex_before(s.arena, id) != Some(v) && from.cost.sum(link_cost).below(t.min[v as int]) {
                with_state(t, Solution { cost: from.cost.sum(link_cost), vertex: v, prev: Some(id as usize) })
            } else {
                t
            },
            None => t,
        }
    }
}

/// How a search for the next pin ends.
pub enum SearchEnd<C> {
    Found { s: State<C>, id: int, pin: int },
    Nowhere,
}

/// The ranks of all costs of a list together.
pub open spec fn total_rank<C: Cost>(min: Seq<C>) -> nat
    decreases min.len(),
{
    if min.len() == 0 { 0 } else { total_rank(min.drop_last()) + min.last().rank() as nat }
}

/// Whether a search's parts fit together and its graph.
pub open spec fn can_search<C>(g: SparseGraph<C>, s: State<C>) -> bool {
    &&& graph_ok(g)
    &&& arena_ok(s.arena, g.vertices@.len() as int)
    &&& forall|i: int| 0 <= i < s.heap.len() ==> (#[trigger] s.heap[i]) < s.arena.len()
    &&& s.min.len() == g.vertices@.len()
}

proof fn lemma_lower_total<C: Cost>(min: Seq<C>, v: int, c: C)
    requires
        0 <= v < min.len(),
        c.below(min[v]),
    ensures
        total_rank(min.update(v, c)) < total_rank(min),
    decreases min.len(),
{
    c.below_ranks_before(min[v]);
    let now = min.update(v, c);
    if v == min.len() - 1 {
        assert(now.drop_last() =~= min.drop_last());
    } else {
        assert(now.drop_last() =~= min.drop_last().update(v, c));
        lemma_lower_total(min.drop_last(), v, c);
    }
}

/// Exploring a state adds nothing, or makes a vertex cheaper.
proof fn lemma_explored_lowers<C: Cost>(g: SparseGraph<C>, s: State<C>, id: int, n: int)
    requires
        can_search(g, s),
        0 <= id < s.arena.len(),
        n <= 3,
    ensures
        explored(g, s, id, n) == s || total_rank(explored(g, s, id, n).min) < total_rank(s.min),
        explored(g, s, id, n).min.len() == s.min.len(),
    decreases n,
{
    if n > 0 {
        lemma_explored_lowers(g, s, id, n - 1);
        let t = explored(g, s, id, n - 1);
        let from = s.arena[id];
        let (target, link_cost) = link_of(g, from.vertex as int, n - 1);
        if let Some(v) = target {
            assert(g.edges@[from.vertex as int] == g.edges@[from.vertex as int]);
            if from.cost.sum(link_cost).below(t.min[v as int]) {
                lemma_lower_total(t.min, v as int, from.cost.sum(link_cost));
            }
        }
    }
}

/// The search for the next pin: the highest state is taken; it is the end where it is at a pin not yet
/// visited, and is explored unless its vertex was reached for less.
pub open spec fn searched<C: Cost>(g: SparseGraph<C>, s: State<C>, visited: Seq<bool>) -> SearchEnd<C>
    decreases total_rank(s.min), s.heap.len(),
    when can_search(g, s)
    via searched_falls::<C>
{
    if s.heap.len() == 0 {
        SearchEnd::Nowhere
    } else {
        let id = s.heap[0] as int;
        let t = State { heap: popped(ranks(s.arena), s.heap), ..s };
        let at = s.arena[id].vertex as int;
        let fresh = match g.vertex_pin@[at] {
            Some(k) => !visited[k as int],
            None => false,
        };
        if fresh {
            SearchEnd::Found { s: t, id, pin: g.vertex_pin@[at]->0 as int }
        } else if t.min[at].below(s.arena[id].cost) {
            searched(g, t, visited)
        } else {
            searched(g, explored(g, t, id, 3), visited)
        }
    }
}

#[via_fn]
proof fn searched_falls<C: Cost>(g: SparseGraph<C>, s: State<C>, visited: Seq<bool>) {
    if s.heap.len() > 0 {
        let id = s.heap[0] as int;
        let t = State { heap: popped(ranks(s.arena), s.heap), ..s };
        lemma_search_step(g, s);
        lemma_explored_lowers(g, t, id, 3);
    }
}

/// Taking the highest state off leaves a search with one state less to explore.
proof fn lemma_search_step<C: Cost>(g: SparseGraph<C>, s: State<C>)
    requires
        can_search(g, s),
        s.heap.len() > 0,
    ensures
        ({
            let t = State { heap: popped(ranks(s.arena), s.heap), ..s };
            can_search(g, t) && t.heap.len() == s.heap.len() - 1
        }),
{
    broadcast use vstd::seq_lib::group_to_multiset_ensures;
    broadcast use vstd::multiset::group_multiset_axioms;

    a_heap_loses_nothing_else(ranks(s.arena), s.heap, 0);
    let h = popped(ranks(s.arena), s.heap);
    assert(s.heap.contains(s.heap[0]));
    assert(s.heap.to_multiset().count(s.heap[0]) > 0);
    assert(h.to_multiset().len() == s.heap.to_multiset().len() - 1);
    assert(h.len() == s.heap.len() - 1);
    assert forall|i: int| 0 <= i < h.len() implies (#[trigger] h[i]) < s.arena.len() by {
        assert(h.contains(h[i]));
        assert(h.to_multiset().count(h[i]) > 0);
        assert(s.heap.to_multiset().count(h[i]) > 0);
        assert(s.heap.contains(h[i]));
    }
}

/// A search after the path to a state is seeded again at no cost, back to a state that costs nothing.
pub open spec fn reseeded<C: Cost>(s: State<C>, id: Option<usize>, zero: C) -> State<C>
    decreases (match id { Some(k) => k + 1, None => 0 }),
{
    match id {
        Some(k) => {
            let n = s.arena[k as int];
            if same_cost(n.cost, zero) {
                s
            } else {
                let t = with_state(s, Solution { cost: zero, vertex: n.vertex, prev: n.prev });
                match n.prev {
                    Some(p) => if p < k { reseeded(t, Some(p), zero) } else { t },
                    None => t,
                }
            }
        },
        None => s,
    }
}

/// How joining pins ends: the states, and for every pin joined the state that reached it.
pub enum JoinEnd<C> {
    Done { arena: Seq<Solution<C>>, found: Seq<usize> },
    Failed(MazeError),
}

/// Joins `left` more pins, one at a time.
pub open spec fn joined<C: Cost>(g: SparseGraph<C>, s: State<C>, visited: Seq<bool>, found: Seq<usize>, left: nat, zero: C) -> JoinEnd<C>
    decreases left,
{
    if left == 0 {
        JoinEnd::Done { arena: s.arena, found }
    } else {
        match searched(g, s, visited) {
            SearchEnd::Found { s: t, id, pin } => joined(
                g,
                reseeded(t, Some(id as usize), zero),
                visited.update(pin, true),
                found.push(id as usize),
                (left - 1) as nat,
                zero,
            ),
            SearchEnd::Nowhere => JoinEnd::Failed(MazeError::NoConnectedPin),
        }
    }
}

/// The search before it starts: the first pin's vertex, at no cost.
pub open spec fn seeded<C: Cost>(g: SparseGraph<C>, zero: C, max: C) -> State<C> {
    with_state(
        State { arena: Seq::empty(), heap: Seq::empty(), min: Seq::new(g.vertices@.len(), |u: int| max) },
        Solution { cost: zero, vertex: g.pin_vertex@[0], prev: None },
    )
}

/// The whole search: from the first pin until all are joined.
pub open spec fn search_end<C: Cost>(g: SparseGraph<C>, zero: C, max: C) -> JoinEnd<C> {
    let pins = g.pseudo_pins@.len();
    joined(g, seeded(g, zero, max), Seq::new(pins, |k: int| k == 0), Seq::empty(), (pins - 1) as nat, zero)
}

/// Whether every state comes from one before it, at a vertex of the graph.
pub open spec fn arena_ok<C>(arena: Seq<Solution<C>>, vertices: int) -> bool {
    forall|i: int| 0 <= i < arena.len() ==> (#[trigger] arena[i]).vertex < vertices && (arena[i].prev matches Some(p) ==> p < i)
}

/// What a search holds.
struct Search<C> {
    arena: Arena<C>,
    heap: LibcxxHeap,
    min: Vec<C>,
}

impl<C: Cost> Search<C> {
    spec fn state(&self) -> State<C> {
        State { arena: self.arena.v@, heap: self.heap.v@, min: self.min@ }
    }

    spec fn ok(&self, g: SparseGraph<C>) -> bool {
        &&& all_known(self.arena, self.heap.v@)
        &&& arena_ok(self.arena.v@, g.vertices@.len() as int)
        &&& self.min@.len() == g.vertices@.len()
    }

    proof fn lemma_can_search(&self, g: SparseGraph<C>)
        requires
            graph_ok(g),
            self.ok(g),
        ensures
            can_search(g, self.state()),
    {
        assert forall|i: int| 0 <= i < self.heap.v@.len() implies (#[trigger] self.heap.v@[i]) < self.arena.v@.len() by {
            assert(self.arena.knows(self.heap.v@[i]));
        }
    }

    fn add(&mut self, n: Solution<C>, g: &SparseGraph<C>)
        requires
            old(self).ok(*g),
            n.vertex < g.vertices@.len(),
            n.prev matches Some(p) ==> p < old(self).arena.v@.len(),
        ensures
            final(self).state() == with_state(old(self).state(), n),
            final(self).ok(*g),
            final(self).arena.v@ == old(self).arena.v@.push(n),
    {
        let ghost s0 = self.state();
        let id: usize = self.arena.v.len();
        self.arena.v.push(n);
        self.heap.push(id, &self.arena);
        let v: usize = n.vertex;
        if n.cost.is_below(self.min[v]) {
            self.min.set(v, n.cost);
        }
        proof {
            let s1 = self.state();
            let w = with_state(s0, n);
            assert(s1.min =~= w.min);
            assert(s1 =~= w);
        }
    }

    fn explore(&mut self, g: &SparseGraph<C>, id: usize)
        requires
            graph_ok(*g),
            old(self).ok(*g),
            id < old(self).arena.v@.len(),
        ensures
            final(self).state() == explored(*g, old(self).state(), id as int, 3),
            final(self).ok(*g),
    {
        let ghost s0 = self.state();
        let from = self.arena.v[id];
        assert(self.arena.v@[id as int].vertex < g.vertices@.len());
        let before: Option<usize> = match from.prev {
            Some(p) => Some(self.arena.v[p].vertex),
            None => None,
        };
        assert(before == vertex_before(s0.arena, id as int));
        let l = g.edges[from.vertex];
        let c = g.costs[from.vertex];
        let mut e: usize = 0;
        while e < 3
            invariant
                graph_ok(*g),
                self.ok(*g),
                s0.arena.len() <= self.arena.v@.len(),
                id < s0.arena.len(),
                from == s0.arena[id as int],
                from.vertex < g.vertices@.len(),
                before == vertex_before(s0.arena, id as int),
                l == g.edges@[from.vertex as int],
                c == g.costs@[from.vertex as int],
                e <= 3,
                self.state() == explored(*g, s0, id as int, e as int),
            decreases 3 - e,
        {
            let (target, link_cost) = if e == 0 {
                (l.next, c.next)
            } else if e == 1 {
                (l.prev, c.prev)
            } else {
                (l.across, c.across)
            };
            assert((target, link_cost) == link_of(*g, from.vertex as int, e as int));
            match target {
                Some(v) => {
                    let back = match before {
                        Some(b) => b == v,
                        None => false,
                    };
                    if !back {
                        let cost = from.cost.plus(link_cost);
                        if cost.is_below(self.min[v]) {
                            self.add(Solution { cost, vertex: v, prev: Some(id) }, g);
                        }
                    }
                },
                None => {},
            }
            e += 1;
        }
    }

    /// Searches for the next pin.
    fn find(&mut self, g: &SparseGraph<C>, visited: &Vec<bool>) -> (r: Result<(usize, usize), MazeError>)
        requires
            graph_ok(*g),
            old(self).ok(*g),
            visited@.len() == g.pseudo_pins@.len(),
        ensures
            match r {
                Ok((id, pin)) => {
                    &&& searched(*g, old(self).state(), visited@) == (SearchEnd::Found { s: final(self).state(), id: id as int, pin: pin as int })
                    &&& final(self).ok(*g)
                    &&& old(self).arena.v@.len() <= final(self).arena.v@.len()
                    &&& id < final(self).arena.v@.len()
                    &&& pin < visited@.len()
                },
                Err(MazeError::NoConnectedPin) => searched(*g, old(self).state(), visited@) is Nowhere,
                Err(_) => false,
            },
    {
        let ghost goal = searched(*g, self.state(), visited@);
        while !self.heap.is_empty()
            invariant
                graph_ok(*g),
                self.ok(*g),
                visited@.len() == g.pseudo_pins@.len(),
                old(self).arena.v@.len() <= self.arena.v@.len(),
                goal == searched(*g, old(self).state(), visited@),
                searched(*g, self.state(), visited@) == goal,
            decreases total_rank(self.min@), self.heap.v@.len(),
        {
            let ghost s0 = self.state();
            proof {
                self.lemma_can_search(*g);
                lemma_search_step(*g, s0);
            }
            let id: usize = self.heap.top();
            assert(self.arena.knows(self.heap.v@[0]));
            self.heap.pop(&self.arena);
            let n = self.arena.v[id];
            assert(self.arena.v@[id as int].vertex < g.vertices@.len());
            assert(self.state() =~= State { heap: popped(ranks(s0.arena), s0.heap), ..s0 });
            match g.vertex_pin[n.vertex] {
                Some(k) => {
                    assert(g.vertex_pin@[n.vertex as int] is Some);
                    if !visited[k] {
                        return Ok((id, k));
                    }
                },
                None => {},
            }
            if !self.min[n.vertex].is_below(n.cost) {
                proof {
                    lemma_explored_lowers(*g, self.state(), id as int, 3);
                    lemma_explore_grows(*g, self.state(), id as int, 3);
                }
                self.explore(g, id);
            }
        }
        proof {
            self.lemma_can_search(*g);
        }
        Err(MazeError::NoConnectedPin)
    }

    fn seed_again(&mut self, g: &SparseGraph<C>, id: usize, zero: C)
        requires
            old(self).ok(*g),
            id < old(self).arena.v@.len(),
        ensures
            final(self).state() == reseeded(old(self).state(), Some(id), zero),
            final(self).ok(*g),
    {
        let ghost goal = reseeded(self.state(), Some(id), zero);
        let mut at: usize = id;
        loop
            invariant_except_break
                self.ok(*g),
                at < self.arena.v@.len(),
                reseeded(self.state(), Some(at), zero) == goal,
            ensures
                self.ok(*g),
                self.state() == goal,
            decreases at,
        {
            let n = self.arena.v[at];
            assert(self.arena.v@[at as int].vertex < g.vertices@.len());
            if !n.cost.is_below(zero) && !zero.is_below(n.cost) {
                break;
            }
            self.add(Solution { cost: zero, vertex: n.vertex, prev: n.prev }, g);
            match n.prev {
                Some(p) => {
                    at = p;
                },
                None => {
                    break;
                },
            }
        }
    }
}

/// Joins the pins of a graph: from the first, always the cheapest state not yet explored, until every pin
/// is reached. Each path found is seeded again at no cost, so that later pins can join it.
///
/// Refused where a pin cannot be reached.
pub fn run<C: Cost>(g: &SparseGraph<C>, zero: C, max: C) -> (r: Result<(Arena<C>, Vec<usize>), MazeError>)
    requires
        graph_ok(*g),
        g.pseudo_pins@.len() > 0,
    ensures
        match r {
            Ok((arena, found)) => {
                &&& search_end(*g, zero, max) == (JoinEnd::Done { arena: arena.v@, found: found@ })
                &&& arena_ok(arena.v@, g.vertices@.len() as int)
                &&& forall|i: int| 0 <= i < found@.len() ==> #[trigger] found@[i] < arena.v@.len()
                &&& found@.len() == g.pseudo_pins@.len() - 1
            },
            Err(e) => search_end(*g, zero, max) == JoinEnd::<C>::Failed(e),
        },
{
    let pins: usize = g.pseudo_pins.len();
    let mut visited: Vec<bool> = crate::vecs::filled(false, pins);
    visited.set(0, true);
    let mut search = Search { arena: Arena { v: Vec::new() }, heap: LibcxxHeap::new(), min: crate::vecs::filled(max, g.vertices.len()) };
    assert(search.state() =~= State { arena: Seq::empty(), heap: Seq::empty(), min: Seq::new(g.vertices@.len(), |u: int| max) });
    assert(g.pin_vertex@[0] < g.vertices@.len());
    search.add(Solution { cost: zero, vertex: g.pin_vertex[0], prev: None }, g);
    let mut found: Vec<usize> = Vec::new();
    let mut left: usize = pins - 1;
    let ghost goal = search_end(*g, zero, max);
    assert(visited@ =~= Seq::new(pins as nat, |k: int| k == 0));
    while left > 0
        invariant
            graph_ok(*g),
            search.ok(*g),
            pins == g.pseudo_pins@.len(),
            visited@.len() == pins,
            left <= pins - 1,
            found@.len() == pins - 1 - left,
            forall|i: int| 0 <= i < found@.len() ==> #[trigger] found@[i] < search.arena.v@.len(),
            goal == search_end(*g, zero, max),
            joined(*g, search.state(), visited@, found@, left as nat, zero) == goal,
        decreases left,
    {
        match search.find(g, &visited) {
            Ok((id, pin)) => {
                found.push(id);
                visited.set(pin, true);
                proof {
                    lemma_reseed_grows(search.state(), Some(id), zero);
                }
                search.seed_again(g, id, zero);
                left -= 1;
            },
            Err(e) => {
                return Err(e);
            },
        }
    }
    Ok((search.arena, found))
}

proof fn lemma_explore_grows<C: Cost>(g: SparseGraph<C>, s: State<C>, id: int, n: int)
    ensures
        explored(g, s, id, n).arena.len() >= s.arena.len(),
    decreases n,
{
    if n > 0 {
        lemma_explore_grows(g, s, id, n - 1);
    }
}

proof fn lemma_reseed_grows<C: Cost>(s: State<C>, id: Option<usize>, zero: C)
    ensures
        reseeded(s, id, zero).arena.len() >= s.arena.len(),
    decreases (match id { Some(k) => k + 1, None => 0 }),
{
    if let Some(k) = id {
        let n = s.arena[k as int];
        if !same_cost(n.cost, zero) {
            if let Some(p) = n.prev {
                if p < k {
                    lemma_reseed_grows(with_state(s, Solution { cost: zero, vertex: n.vertex, prev: n.prev }), Some(p), zero);
                }
            }
        }
    }
}

// ---- what a search finds ----

/// Whether adding what a link costs lowers no cost.
pub open spec fn links_lower_nothing<C: Cost>(g: SparseGraph<C>) -> bool {
    forall|u: int, e: int, a: C| 0 <= u < g.vertices@.len() && 0 <= e < 3 ==> at_most(a, #[trigger] a.sum(link_of(g, u, e).1))
}

/// A walk: the vertices that it passes, and by which link it leaves each but the last.
pub struct MazeWalk {
    pub at: Seq<int>,
    pub by: Seq<int>,
}

/// Whether the `k`-th step of a walk follows a link of the graph.
pub open spec fn follows_link<C>(g: SparseGraph<C>, w: MazeWalk, k: int) -> bool {
    &&& 0 <= w.at[k] < g.vertices@.len()
    &&& 0 <= w.by[k] < 3
    &&& link_of(g, w.at[k], w.by[k]).0 matches Some(v) && v == w.at[k + 1]
}

pub open spec fn is_walk<C>(g: SparseGraph<C>, w: MazeWalk) -> bool {
    &&& w.at.len() == w.by.len() + 1
    &&& 0 <= w.at[0] < g.vertices@.len()
    &&& forall|k: int| 0 <= k < w.by.len() ==> #[trigger] follows_link(g, w, k)
}

/// What the first `n` steps of a walk cost, one after another.
pub open spec fn walk_cost<C: Cost>(g: SparseGraph<C>, w: MazeWalk, zero: C, n: int) -> C
    decreases n,
{
    if n <= 0 { zero } else { walk_cost(g, w, zero, n - 1).sum(link_of(g, w.at[n - 1], w.by[n - 1]).1) }
}

/// Whether a vertex is on the path that a state was reached by.
pub open spec fn on_path<C>(arena: Seq<Solution<C>>, id: int, v: int) -> bool
    decreases id,
{
    arena[id].vertex == v || (arena[id].prev matches Some(p) && p < id && on_path(arena, p as int, v))
}

/// Whether a vertex is in the tree once the first `n` pins are joined to the first: the first pin's own, or one on the
/// path to a pin joined.
pub open spec fn in_tree<C>(g: SparseGraph<C>, arena: Seq<Solution<C>>, found: Seq<usize>, n: int, v: int) -> bool {
    v == g.pin_vertex@[0] || exists|j: int| 0 <= j < n && on_path(arena, (#[trigger] found[j]) as int, v)
}

/// Whether a pin is the first or was joined by one of the first `n` paths.
pub open spec fn is_joined<C>(g: SparseGraph<C>, arena: Seq<Solution<C>>, found: Seq<usize>, n: int, pin: usize) -> bool {
    pin == 0 || exists|j: int| 0 <= j < n && g.vertex_pin@[arena[(#[trigger] found[j]) as int].vertex as int] == Some(pin)
}

/// Whether a walk leads from the tree of the first `n` paths to a pin that is not yet joined.
pub open spec fn leads_to_a_new_pin<C>(g: SparseGraph<C>, arena: Seq<Solution<C>>, found: Seq<usize>, n: int, w: MazeWalk) -> bool {
    &&& is_walk(g, w)
    &&& in_tree(g, arena, found, n, w.at[0])
    &&& 0 <= w.at.last() < g.vertices@.len()
    &&& g.vertex_pin@[w.at.last()] matches Some(pin) && !is_joined(g, arena, found, n, pin)
}

// ---- invariants of a search ----

/// Whether every vertex on the path to a state costs nothing.
spec fn path_is_free<C: Cost>(arena: Seq<Solution<C>>, min: Seq<C>, i: int, zero: C) -> bool
    decreases i,
{
    &&& at_most(min[arena[i].vertex as int], zero)
    &&& arena[i].prev matches Some(p) ==> p < i ==> path_is_free(arena, min, p as int, zero)
}

/// Whether a state's cost fits the least costs; whether the one that it comes from does as well.
spec fn cost_fits<C: Cost>(s: State<C>, zero: C, max: C, i: int) -> bool {
    let n = s.arena[i];
    at_most(s.min[n.vertex as int], n.cost) && at_most(zero, n.cost) && at_most(n.cost, max)
}

spec fn origin_fits<C: Cost>(s: State<C>, zero: C, i: int) -> bool {
    let n = s.arena[i];
    &&& n.prev matches Some(p) ==> at_most(s.min[s.arena[p as int].vertex as int], n.cost)
    &&& at_most(n.cost, zero) ==> path_is_free(s.arena, s.min, i, zero)
}

/// Whether the least costs fit the first `m` states and the heap is one.
spec fn labels_fit<C: Cost>(g: SparseGraph<C>, s: State<C>, zero: C, max: C, m: int) -> bool {
    &&& can_search(g, s)
    &&& is_heap(ranks(s.arena), s.heap)
    &&& s.arena.len() <= usize::MAX
    &&& forall|u: int| 0 <= u < s.min.len() ==> at_most(#[trigger] s.min[u], max) && at_most(zero, s.min[u])
    &&& forall|i: int| 0 <= i < s.arena.len() ==> #[trigger] cost_fits(s, zero, max, i)
    &&& 0 <= m <= s.arena.len()
    &&& forall|i: int| 0 <= i < m ==> #[trigger] origin_fits(s, zero, i)
}

/// Whether a vertex is still to be explored at its least cost.
spec fn is_queued<C: Cost>(s: State<C>, u: int) -> bool {
    exists|id: usize| #[trigger] s.heap.contains(id) && s.arena[id as int].vertex == u && at_most(s.arena[id as int].cost, s.min[u])
}

/// Whether a link makes no vertex cheaper.
spec fn link_is_done<C: Cost>(g: SparseGraph<C>, s: State<C>, u: int, e: int) -> bool {
    link_of(g, u, e).0 matches Some(v) ==> at_most(s.min[v as int], s.min[u].sum(link_of(g, u, e).1))
}

spec fn is_done<C: Cost>(g: SparseGraph<C>, s: State<C>, u: int) -> bool {
    forall|e: int| 0 <= e < 3 ==> #[trigger] link_is_done(g, s, u, e)
}

/// Whether every vertex but one is still to be explored or is done.
spec fn all_settled_but<C: Cost>(g: SparseGraph<C>, s: State<C>, but: int) -> bool {
    forall|u: int| 0 <= u < s.min.len() && u != but ==> #[trigger] is_queued(s, u) || is_done(g, s, u)
}

spec fn is_fresh<C>(g: SparseGraph<C>, visited: Seq<bool>, u: int) -> bool {
    g.vertex_pin@[u] matches Some(k) && !visited[k as int]
}

/// Whether every vertex of a pin not yet visited but one is still to be explored, or was not reached.
spec fn fresh_wait_but<C: Cost>(g: SparseGraph<C>, s: State<C>, visited: Seq<bool>, max: C, but: int) -> bool {
    forall|u: int| 0 <= u < s.min.len() && u != but && #[trigger] is_fresh(g, visited, u) ==> is_queued(s, u) || at_most(max, s.min[u])
}

/// Whether a search goes on from another: its states are there, and nothing has become dearer.
spec fn goes_on_from<C: Cost>(t: State<C>, s: State<C>) -> bool {
    &&& s.arena.len() <= t.arena.len()
    &&& forall|i: int| 0 <= i < s.arena.len() ==> #[trigger] t.arena[i] == s.arena[i]
    &&& t.min.len() == s.min.len()
    &&& forall|u: int| 0 <= u < s.min.len() ==> at_most(#[trigger] t.min[u], s.min[u])
}

proof fn lemma_same_is_at_most<C: Cost>(a: C)
    requires
        costs_add_up::<C>(),
    ensures
        at_most(a, a),
{
    assert(!a.below(a));
}

proof fn lemma_goes_on_trans<C: Cost>(a: State<C>, b: State<C>, c: State<C>)
    requires
        costs_add_up::<C>(),
        goes_on_from(b, a),
        goes_on_from(c, b),
    ensures
        goes_on_from(c, a),
{
    assert forall|i: int| 0 <= i < a.arena.len() implies #[trigger] c.arena[i] == a.arena[i] by {
        assert(b.arena[i] == a.arena[i]);
    }
    assert forall|u: int| 0 <= u < a.min.len() implies at_most(#[trigger] c.min[u], a.min[u]) by {
        assert(at_most(c.min[u], b.min[u]) && at_most(b.min[u], a.min[u]));
    }
}

proof fn lemma_goes_on_itself<C: Cost>(s: State<C>)
    requires
        costs_add_up::<C>(),
    ensures
        goes_on_from(s, s),
{
    assert forall|u: int| 0 <= u < s.min.len() implies at_most(#[trigger] s.min[u], s.min[u]) by {
        lemma_same_is_at_most(s.min[u]);
    }
}

/// The order of states is a ranking.
proof fn lemma_ranks_rank<C: Cost>(arena: Seq<Solution<C>>)
    requires
        costs_add_up::<C>(),
    ensures
        is_ranking(ranks(arena)),
{
    let o = ranks(arena);
    assert forall|a: usize| !#[trigger] o(a, a) by {
        let x = arena[a as int].cost;
        assert(!x.below(x));
    }
    assert forall|a: usize, b: usize, c: usize| #[trigger] o(a, b) && #[trigger] o(b, c) implies o(a, c) by {
        let (x, y, z) = (arena[a as int].cost, arena[b as int].cost, arena[c as int].cost);
        assert(at_most(z, y) && at_most(y, x)) by {
            assert(y.below(x) ==> at_most(y, x));
            assert(z.below(y) ==> at_most(z, y));
        }
        assert(at_most(z, x));
        if same_cost(x, z) {
            assert(at_most(x, z));
            assert(at_most(x, y)) by {
                assert(at_most(x, z) && at_most(z, y));
            }
            assert(at_most(y, z)) by {
                assert(at_most(y, x) && at_most(x, z));
            }
        }
    }
    assert forall|a: usize, b: usize, c: usize| !#[trigger] o(a, b) && !#[trigger] o(b, c) implies !o(a, c) by {
        let (x, y, z) = (arena[a as int].cost, arena[b as int].cost, arena[c as int].cost);
        assert(at_most(x, y) && at_most(y, z));
        assert(at_most(x, z));
        if same_cost(x, z) {
            assert(at_most(z, x));
            assert(at_most(y, x)) by {
                assert(at_most(y, z) && at_most(z, x));
            }
            assert(at_most(z, y)) by {
                assert(at_most(z, x) && at_most(x, y));
            }
        }
    }
}

/// The first state of the heap costs no more than any other in it.
proof fn lemma_first_is_cheapest<C: Cost>(s: State<C>, id: usize)
    requires
        costs_add_up::<C>(),
        is_heap(ranks(s.arena), s.heap),
        s.heap.contains(id),
    ensures
        at_most(s.arena[s.heap[0] as int].cost, s.arena[id as int].cost),
{
    lemma_ranks_rank(s.arena);
    let j = choose|j: int| 0 <= j < s.heap.len() && s.heap[j] == id;
    the_first_place_is_the_highest(ranks(s.arena), s.heap, j);
    let (x, y) = (s.arena[s.heap[0] as int].cost, s.arena[id as int].cost);
    if y.below(x) {
        assert(ranks(s.arena)(s.heap[0], s.heap[j]));
    }
}

proof fn lemma_pushed_holds(o: spec_fn(usize, usize) -> bool, v: Seq<usize>, x: usize, y: usize)
    ensures
        pushed(o, v, x).contains(y) <==> v.contains(y) || y == x,
{
    broadcast use vstd::seq_lib::group_to_multiset_ensures;
    broadcast use vstd::multiset::group_multiset_axioms;

    a_heap_loses_nothing_else(o, v, x);
    let h = pushed(o, v, x);
    assert(h.to_multiset().count(y) > 0 <==> h.contains(y));
    assert(v.to_multiset().count(y) > 0 <==> v.contains(y));
}

proof fn lemma_popped_holds(o: spec_fn(usize, usize) -> bool, v: Seq<usize>, y: usize)
    requires
        v.len() > 0,
        v.contains(y),
        y != v[0],
    ensures
        popped(o, v).contains(y),
{
    broadcast use vstd::seq_lib::group_to_multiset_ensures;
    broadcast use vstd::multiset::group_multiset_axioms;

    a_heap_loses_nothing_else(o, v, 0);
    let h = popped(o, v);
    assert(v.to_multiset().count(y) > 0);
    assert(h.to_multiset().count(y) > 0);
}

/// A path that costs nothing goes on to.
proof fn lemma_path_stays_free<C: Cost>(s: State<C>, t: State<C>, i: int, zero: C)
    requires
        costs_add_up::<C>(),
        goes_on_from(t, s),
        0 <= i < s.arena.len(),
        arena_ok(s.arena, s.min.len() as int),
        path_is_free(s.arena, s.min, i, zero),
    ensures
        path_is_free(t.arena, t.min, i, zero),
    decreases i,
{
    assert(t.arena[i] == s.arena[i]);
    let v = s.arena[i].vertex as int;
    assert(at_most(t.min[v], s.min[v]) && at_most(s.min[v], zero));
    if let Some(p) = s.arena[i].prev {
        lemma_path_stays_free(s, t, p as int, zero);
    }
}

/// Adding a state at no more than the least cost of its vertex keeps what holds of a search; the vertex is then to be
/// explored.
proof fn lemma_add<C: Cost>(g: SparseGraph<C>, s: State<C>, n: Solution<C>, zero: C, max: C, m: int)
    requires
        costs_add_up::<C>(),
        labels_fit(g, s, zero, max, m),
        s.arena.len() < usize::MAX,
        n.vertex < g.vertices@.len(),
        n.prev matches Some(p) ==> p < s.arena.len(),
        at_most(n.cost, s.min[n.vertex as int]),
        at_most(zero, n.cost),
    ensures
        ({
            let t = with_state(s, n);
            &&& labels_fit(g, t, zero, max, m)
            &&& goes_on_from(t, s)
            &&& t.arena == s.arena.push(n)
            &&& is_queued(t, n.vertex as int)
            &&& at_most(t.min[n.vertex as int], n.cost)
            &&& forall|u: int| 0 <= u < s.min.len() && u != n.vertex ==> #[trigger] t.min[u] == s.min[u]
            &&& forall|u: int| 0 <= u < s.min.len() && is_queued(s, u) ==> #[trigger] is_queued(t, u)
            &&& forall|u: int| 0 <= u < s.min.len() && u != n.vertex && is_done(g, s, u) ==> #[trigger] is_done(g, t, u)
            &&& forall|u: int, e: int| 0 <= u < s.min.len() && u != n.vertex && 0 <= e < 3 && link_is_done(g, s, u, e) ==> #[trigger] link_is_done(g, t, u, e)
        }),
{
    let t = with_state(s, n);
    let v = n.vertex as int;
    let id = s.arena.len() as usize;
    let (o, q) = (ranks(s.arena), ranks(t.arena));
    lemma_same_is_at_most(n.cost);
    lemma_same_is_at_most(s.min[v]);
    assert(at_most(t.min[v], n.cost));
    assert(at_most(t.min[v], s.min[v])) by {
        if n.cost.below(s.min[v]) {
            assert(at_most(n.cost, s.min[v]));
        }
    }
    assert forall|u: int| 0 <= u < s.min.len() implies at_most(#[trigger] t.min[u], s.min[u]) by {
        lemma_same_is_at_most(s.min[u]);
    }
    assert(goes_on_from(t, s));
    // the heap
    lemma_ranks_rank(t.arena);
    assert(is_heap(q, s.heap)) by {
        assert forall|i: int| 1 <= i < s.heap.len() implies #[trigger] holds_at(q, s.heap, i) by {
            assert(holds_at(o, s.heap, i));
            let j = parent(i);
            assert(0 <= j < i);
            assert(s.heap[j] < s.arena.len() && s.heap[i] < s.arena.len());
            assert(t.arena[s.heap[j] as int] == s.arena[s.heap[j] as int]);
            assert(t.arena[s.heap[i] as int] == s.arena[s.heap[i] as int]);
        }
    }
    adding_keeps_the_heap(q, s.heap, id);
    assert forall|i: int| 0 <= i < t.heap.len() implies (#[trigger] t.heap[i]) < t.arena.len() by {
        assert(t.heap.contains(t.heap[i]));
        lemma_pushed_holds(q, s.heap, id, t.heap[i]);
        if s.heap.contains(t.heap[i]) {
            let j = choose|j: int| 0 <= j < s.heap.len() && s.heap[j] == t.heap[i];
            assert(s.heap[j] < s.arena.len());
        }
    }
    assert(can_search(g, t));
    // costs
    assert forall|u: int| 0 <= u < t.min.len() implies at_most(#[trigger] t.min[u], max) && at_most(zero, t.min[u]) by {
        assert(at_most(s.min[u], max) && at_most(zero, s.min[u]));
        assert(at_most(t.min[u], s.min[u]));
    }
    assert forall|i: int| 0 <= i < t.arena.len() implies #[trigger] cost_fits(t, zero, max, i) by {
        if i < s.arena.len() {
            assert(cost_fits(s, zero, max, i));
            let w = s.arena[i].vertex as int;
            assert(at_most(t.min[w], s.min[w]) && at_most(s.min[w], s.arena[i].cost));
        } else {
            assert(at_most(n.cost, s.min[v]) && at_most(s.min[v], max));
        }
    }
    assert forall|i: int| 0 <= i < m implies #[trigger] origin_fits(t, zero, i) by {
        assert(origin_fits(s, zero, i));
        if let Some(p) = s.arena[i].prev {
            let w = s.arena[p as int].vertex as int;
            assert(t.arena[p as int] == s.arena[p as int]);
            assert(at_most(t.min[w], s.min[w]) && at_most(s.min[w], s.arena[i].cost));
        }
        if at_most(s.arena[i].cost, zero) {
            lemma_path_stays_free(s, t, i, zero);
        }
    }
    // what is to be explored
    lemma_pushed_holds(q, s.heap, id, id);
    assert(is_queued(t, v)) by {
        assert(t.heap.contains(id));
        assert(t.arena[id as int] == n);
        assert(at_most(n.cost, t.min[v]));
    }
    assert forall|u: int| 0 <= u < s.min.len() && is_queued(s, u) implies #[trigger] is_queued(t, u) by {
        if u != v {
            let k = choose|k: usize| #[trigger] s.heap.contains(k) && s.arena[k as int].vertex == u && at_most(s.arena[k as int].cost, s.min[u]);
            lemma_pushed_holds(q, s.heap, id, k);
            let j = choose|j: int| 0 <= j < s.heap.len() && s.heap[j] == k;
            assert(s.heap[j] < s.arena.len());
            assert(t.heap.contains(k));
            assert(t.arena[k as int] == s.arena[k as int]);
        }
    }
    assert forall|u: int, e: int| 0 <= u < s.min.len() && u != v && 0 <= e < 3 && link_is_done(g, s, u, e) implies #[trigger] link_is_done(g, t, u, e) by {
        if let Some(x) = link_of(g, u, e).0 {
            assert(g.edges@[u] == g.edges@[u]);
            assert(t.min[u] == s.min[u]);
            assert(at_most(t.min[x as int], s.min[x as int]));
        }
    }
    assert forall|u: int| 0 <= u < s.min.len() && u != v && is_done(g, s, u) implies #[trigger] is_done(g, t, u) by {
        assert forall|e: int| 0 <= e < 3 implies #[trigger] link_is_done(g, t, u, e) by {
            assert(link_is_done(g, s, u, e));
        }
    }
}

/// Exploring links of a state at its vertex's least cost keeps what holds of a search, and those links are done.
#[verifier::rlimit(60)]
proof fn lemma_explored_fits<C: Cost>(g: SparseGraph<C>, s: State<C>, visited: Seq<bool>, id: int, zero: C, max: C, n: int)
    requires
        costs_add_up::<C>(),
        links_lower_nothing(g),
        labels_fit(g, s, zero, max, s.arena.len() as int),
        0 <= id < s.arena.len(),
        at_most(s.arena[id].cost, s.min[s.arena[id].vertex as int]),
        all_settled_but(g, s, s.arena[id].vertex as int),
        fresh_wait_but(g, s, visited, max, -1),
        0 <= n <= 3,
        explored(g, s, id, n).arena.len() <= usize::MAX,
    ensures
        ({
            let t = explored(g, s, id, n);
            let at = s.arena[id].vertex as int;
            &&& labels_fit(g, t, zero, max, t.arena.len() as int)
            &&& goes_on_from(t, s)
            &&& t.min[at] == s.min[at]
            &&& all_settled_but(g, t, at)
            &&& fresh_wait_but(g, t, visited, max, -1)
            &&& forall|e: int| 0 <= e < n ==> #[trigger] link_is_done(g, t, at, e)
        }),
    decreases n,
{
    let from = s.arena[id];
    let at = from.vertex as int;
    if n == 0 {
        lemma_goes_on_itself(s);
    } else {
        let t = explored(g, s, id, n - 1);
        let u = explored(g, s, id, n);
        lemma_explore_grows(g, s, id, n - 1);
        assert(t.arena.len() <= u.arena.len());
        lemma_explored_fits(g, s, visited, id, zero, max, n - 1);
        let (target, w) = link_of(g, at, n - 1);
        assert(t.arena[id] == from);
        assert(cost_fits(t, zero, max, id) && origin_fits(t, zero, id));
        lemma_same_is_at_most(w);
        if let Some(v) = target {
            assert(g.edges@[at] == g.edges@[at]);
            assert(v < g.vertices@.len());
            let cost = from.cost.sum(w);
            assert(at_most(from.cost, cost));
            assert(at_most(cost, t.min[at].sum(w)));
            assert(at_most(t.min[at], t.min[at].sum(w)));
            if vertex_before(s.arena, id) == Some(v) {
                let p = from.prev->0;
                assert(t.arena[p as int] == s.arena[p as int]);
                assert(at_most(t.min[v as int], from.cost) && at_most(from.cost, t.min[at]));
                assert(at_most(t.min[v as int], t.min[at]));
                assert(link_is_done(g, u, at, n - 1));
            } else if cost.below(t.min[v as int]) {
                let new = Solution { cost, vertex: v, prev: Some(id as usize) };
                assert(at_most(cost, t.min[v as int]));
                if v == at {
                    assert(at_most(t.min[at], from.cost) && at_most(from.cost, cost));
                    assert(at_most(t.min[at], cost));
                }
                assert(at_most(zero, from.cost) && at_most(from.cost, cost));
                let m = t.arena.len() as int;
                lemma_add(g, t, new, zero, max, m);
                assert(u == with_state(t, new));
                lemma_goes_on_trans(s, t, u);
                assert forall|i: int| 0 <= i < u.arena.len() implies #[trigger] origin_fits(u, zero, i) by {
                    if i == m {
                        assert(u.arena[id] == from);
                        assert(at_most(u.min[at], from.cost));
                        assert(at_most(u.min[at], cost));
                        if at_most(cost, zero) {
                            assert(at_most(from.cost, zero));
                            assert(origin_fits(u, zero, id));
                            assert(at_most(u.min[v as int], cost) && at_most(cost, zero));
                        }
                    }
                }
                assert forall|x: int| 0 <= x < u.min.len() && x != at implies #[trigger] is_queued(u, x) || is_done(g, u, x) by {
                    assert(is_queued(t, x) || is_done(g, t, x));
                }
                assert forall|x: int| 0 <= x < u.min.len() && x != -1 && #[trigger] is_fresh(g, visited, x) implies is_queued(u, x) || at_most(max, u.min[x]) by {
                    assert(is_queued(t, x) || at_most(max, t.min[x]));
                }
                assert forall|e: int| 0 <= e < n implies #[trigger] link_is_done(g, u, at, e) by {
                    if e < n - 1 {
                        assert(link_is_done(g, t, at, e));
                    } else {
                        assert(at_most(u.min[v as int], cost) && at_most(cost, u.min[at].sum(w)));
                    }
                }
            } else {
                assert(at_most(t.min[v as int], cost) && at_most(cost, t.min[at].sum(w)));
                assert(link_is_done(g, u, at, n - 1));
            }
        } else {
            assert(link_is_done(g, u, at, n - 1));
        }
    }
}

/// What holds of a search between two states.
spec fn search_fits<C: Cost>(g: SparseGraph<C>, s: State<C>, visited: Seq<bool>, zero: C, max: C) -> bool {
    &&& labels_fit(g, s, zero, max, s.arena.len() as int)
    &&& all_settled_but(g, s, -1)
    &&& fresh_wait_but(g, s, visited, max, -1)
}

/// A search with its highest state taken off.
spec fn without_first<C: Cost>(s: State<C>) -> State<C> {
    State { heap: popped(ranks(s.arena), s.heap), ..s }
}

/// Taking the highest state off leaves every vertex but its own as it was, and its own too where it is dearer.
proof fn lemma_popped_fits<C: Cost>(g: SparseGraph<C>, s: State<C>, visited: Seq<bool>, zero: C, max: C)
    requires
        costs_add_up::<C>(),
        search_fits(g, s, visited, zero, max),
        s.heap.len() > 0,
    ensures
        ({
            let t = without_first(s);
            let n = s.arena[s.heap[0] as int];
            &&& labels_fit(g, t, zero, max, t.arena.len() as int)
            &&& goes_on_from(t, s)
            &&& all_settled_but(g, t, n.vertex as int)
            &&& fresh_wait_but(g, t, visited, max, n.vertex as int)
            &&& s.min[n.vertex as int].below(n.cost) ==> search_fits(g, t, visited, zero, max)
        }),
{
    let t = without_first(s);
    let id = s.heap[0];
    let n = s.arena[id as int];
    let at = n.vertex as int;
    lemma_search_step(g, s);
    lemma_ranks_rank(s.arena);
    removing_keeps_the_heap(ranks(s.arena), s.heap);
    lemma_goes_on_itself(s);
    assert forall|i: int| 0 <= i < t.arena.len() implies #[trigger] cost_fits(t, zero, max, i) by {
        assert(cost_fits(s, zero, max, i));
    }
    assert forall|i: int| 0 <= i < t.arena.len() implies #[trigger] origin_fits(t, zero, i) by {
        assert(origin_fits(s, zero, i));
    }
    assert forall|u: int| 0 <= u < t.min.len() && is_queued(s, u) && (u != at || s.min[at].below(n.cost)) implies #[trigger] is_queued(t, u) by {
        let k = choose|k: usize| #[trigger] s.heap.contains(k) && s.arena[k as int].vertex == u && at_most(s.arena[k as int].cost, s.min[u]);
        assert(k != id);
        lemma_popped_holds(ranks(s.arena), s.heap, k);
        assert(t.heap.contains(k));
    }
    assert forall|u: int| 0 <= u < t.min.len() && (u != at || s.min[at].below(n.cost)) implies #[trigger] is_queued(t, u) || is_done(g, t, u) by {
        assert(is_queued(s, u) || is_done(g, s, u));
        if is_done(g, s, u) {
            assert forall|e: int| 0 <= e < 3 implies #[trigger] link_is_done(g, t, u, e) by {
                assert(link_is_done(g, s, u, e));
            }
        }
    }
    assert forall|u: int| 0 <= u < t.min.len() && (u != at || s.min[at].below(n.cost)) && #[trigger] is_fresh(g, visited, u) implies is_queued(t, u) || at_most(
        max,
        t.min[u],
    ) by {
        assert(is_queued(s, u) || at_most(max, s.min[u]));
    }
}

proof fn lemma_searched_grows<C: Cost>(g: SparseGraph<C>, s: State<C>, visited: Seq<bool>)
    requires
        can_search(g, s),
    ensures
        searched(g, s, visited) matches SearchEnd::Found { s: t, id, pin } ==> t.arena.len() >= s.arena.len(),
    decreases total_rank(s.min), s.heap.len(),
{
    if s.heap.len() > 0 {
        let id = s.heap[0] as int;
        let t = without_first(s);
        lemma_search_step(g, s);
        let at = s.arena[id].vertex as int;
        if t.min[at].below(s.arena[id].cost) {
            lemma_searched_grows(g, t, visited);
        } else {
            lemma_explored_lowers(g, t, id, 3);
            lemma_explore_grows(g, t, id, 3);
            let u = explored(g, t, id, 3);
            lemma_explored_can_search(g, t, id, 3);
            lemma_searched_grows(g, u, visited);
        }
    }
}

proof fn lemma_with_state_can_search<C: Cost>(g: SparseGraph<C>, s: State<C>, n: Solution<C>)
    requires
        can_search(g, s),
        n.vertex < g.vertices@.len(),
        n.prev matches Some(p) ==> p < s.arena.len(),
    ensures
        can_search(g, with_state(s, n)),
{
    let t = with_state(s, n);
    let q = ranks(t.arena);
    let id = s.arena.len() as usize;
    assert forall|i: int| 0 <= i < t.heap.len() implies (#[trigger] t.heap[i]) < t.arena.len() by {
        assert(t.heap.contains(t.heap[i]));
        lemma_pushed_holds(q, s.heap, id, t.heap[i]);
        if s.heap.contains(t.heap[i]) {
            let j = choose|j: int| 0 <= j < s.heap.len() && s.heap[j] == t.heap[i];
            assert(s.heap[j] < s.arena.len());
        }
    }
}

proof fn lemma_explored_can_search<C: Cost>(g: SparseGraph<C>, s: State<C>, id: int, n: int)
    requires
        can_search(g, s),
        0 <= id < s.arena.len(),
        id <= usize::MAX,
        n <= 3,
    ensures
        can_search(g, explored(g, s, id, n)),
        explored(g, s, id, n).arena.len() >= s.arena.len(),
    decreases n,
{
    if n > 0 {
        lemma_explored_can_search(g, s, id, n - 1);
        let t = explored(g, s, id, n - 1);
        let from = s.arena[id];
        let (target, w) = link_of(g, from.vertex as int, n - 1);
        if let Some(v) = target {
            assert(g.edges@[from.vertex as int] == g.edges@[from.vertex as int]);
            if vertex_before(s.arena, id) != Some(v) && from.cost.sum(w).below(t.min[v as int]) {
                lemma_with_state_can_search(g, t, Solution { cost: from.cost.sum(w), vertex: v, prev: Some(id as usize) });
            }
        }
    }
}

/// No walk from a vertex that costs nothing to a pin not yet visited costs less than the first state of the heap.
proof fn lemma_walk<C: Cost>(g: SparseGraph<C>, s: State<C>, visited: Seq<bool>, zero: C, max: C, w: MazeWalk, n: int)
    requires
        costs_add_up::<C>(),
        links_lower_nothing(g),
        search_fits(g, s, visited, zero, max),
        s.heap.len() > 0,
        is_walk(g, w),
        at_most(s.min[w.at[0]], zero),
        0 <= n <= w.by.len(),
    ensures
        0 <= w.at[n] < g.vertices@.len(),
        at_most(s.min[w.at[n]], walk_cost(g, w, zero, n)) || at_most(s.arena[s.heap[0] as int].cost, walk_cost(g, w, zero, n)),
    decreases n,
{
    let top = s.arena[s.heap[0] as int].cost;
    if n > 0 {
        lemma_walk(g, s, visited, zero, max, w, n - 1);
        assert(follows_link(g, w, n - 1));
        let u = w.at[n - 1];
        let (target, c) = link_of(g, u, w.by[n - 1]);
        let v = w.at[n];
        assert(g.edges@[u] == g.edges@[u]);
        let (before, now) = (walk_cost(g, w, zero, n - 1), walk_cost(g, w, zero, n));
        assert(at_most(before, now));
        lemma_same_is_at_most(c);
        if at_most(top, before) {
            assert(at_most(top, now));
        } else {
            assert(at_most(s.min[u], before));
            assert(is_queued(s, u) || is_done(g, s, u));
            if is_queued(s, u) {
                let k = choose|k: usize| #[trigger] s.heap.contains(k) && s.arena[k as int].vertex == u && at_most(s.arena[k as int].cost, s.min[u]);
                lemma_first_is_cheapest(s, k);
                assert(at_most(top, s.arena[k as int].cost) && at_most(s.arena[k as int].cost, s.min[u]));
                assert(at_most(top, s.min[u]));
                assert(at_most(top, before));
            } else {
                assert(link_is_done(g, s, u, w.by[n - 1]));
                assert(at_most(s.min[u].sum(c), before.sum(c)));
                assert(at_most(s.min[v], s.min[u].sum(c)));
                assert(at_most(s.min[v], now));
            }
        }
    }
}

proof fn lemma_no_walk_is_cheaper<C: Cost>(g: SparseGraph<C>, s: State<C>, visited: Seq<bool>, zero: C, max: C, w: MazeWalk)
    requires
        costs_add_up::<C>(),
        links_lower_nothing(g),
        search_fits(g, s, visited, zero, max),
        s.heap.len() > 0,
        is_walk(g, w),
        at_most(s.min[w.at[0]], zero),
        is_fresh(g, visited, w.at.last()),
    ensures
        at_most(s.arena[s.heap[0] as int].cost, walk_cost(g, w, zero, w.by.len() as int)),
{
    let n = w.by.len() as int;
    let top = s.arena[s.heap[0] as int].cost;
    let cost = walk_cost(g, w, zero, n);
    lemma_walk(g, s, visited, zero, max, w, n);
    let u = w.at[n];
    assert(u == w.at.last());
    if !at_most(top, cost) {
        assert(is_queued(s, u) || at_most(max, s.min[u]));
        if is_queued(s, u) {
            let k = choose|k: usize| #[trigger] s.heap.contains(k) && s.arena[k as int].vertex == u && at_most(s.arena[k as int].cost, s.min[u]);
            lemma_first_is_cheapest(s, k);
            assert(at_most(top, s.arena[k as int].cost) && at_most(s.arena[k as int].cost, s.min[u]));
            assert(at_most(top, s.min[u]));
        } else {
            assert(s.heap[0] < s.arena.len());
            assert(cost_fits(s, zero, max, s.heap[0] as int));
            assert(at_most(top, max) && at_most(max, s.min[u]));
            assert(at_most(top, s.min[u]));
        }
        assert(at_most(top, cost));
    }
}

/// What a search for the next pin finds, and how it is left.
#[verifier::rlimit(40)]
proof fn lemma_searched_fits<C: Cost>(g: SparseGraph<C>, s: State<C>, visited: Seq<bool>, zero: C, max: C, t: State<C>, id: int, pin: int)
    requires
        costs_add_up::<C>(),
        links_lower_nothing(g),
        search_fits(g, s, visited, zero, max),
        searched(g, s, visited) == (SearchEnd::Found { s: t, id, pin }),
        t.arena.len() <= usize::MAX,
    ensures
        labels_fit(g, t, zero, max, t.arena.len() as int),
        goes_on_from(t, s),
        0 <= id < t.arena.len(),
        g.vertex_pin@[t.arena[id].vertex as int] == Some(pin as usize),
        0 <= pin <= usize::MAX,
        !visited[pin],
        all_settled_but(g, t, t.arena[id].vertex as int),
        fresh_wait_but(g, t, visited, max, t.arena[id].vertex as int),
        forall|w: MazeWalk|
            #[trigger] is_walk(g, w) && at_most(s.min[w.at[0]], zero) && 0 <= w.at.last() < g.vertices@.len() && is_fresh(g, visited, w.at.last()) ==> at_most(
                t.arena[id].cost,
                walk_cost(g, w, zero, w.by.len() as int),
            ),
    decreases total_rank(s.min), s.heap.len(),
{
    if s.heap.len() > 0 {
        let first = s.heap[0] as int;
        let u = without_first(s);
        let at = s.arena[first].vertex as int;
        lemma_search_step(g, s);
        lemma_popped_fits(g, s, visited, zero, max);
        assert(s.heap[0] < s.arena.len());
        if is_fresh(g, visited, at) {
            assert(t == u && id == first);
            assert forall|w: MazeWalk|
                #[trigger] is_walk(g, w) && at_most(s.min[w.at[0]], zero) && 0 <= w.at.last() < g.vertices@.len() && is_fresh(g, visited, w.at.last()) implies at_most(
                t.arena[id].cost,
                walk_cost(g, w, zero, w.by.len() as int),
            ) by {
                lemma_no_walk_is_cheaper(g, s, visited, zero, max, w);
            }
        } else {
            let v = if u.min[at].below(s.arena[first].cost) { u } else { explored(g, u, first, 3) };
            if !u.min[at].below(s.arena[first].cost) {
                lemma_explored_lowers(g, u, first, 3);
                lemma_explored_can_search(g, u, first, 3);
                lemma_searched_grows(g, v, visited);
                assert(v.arena.len() <= usize::MAX);
                assert forall|x: int| 0 <= x < u.min.len() && x != -1 && #[trigger] is_fresh(g, visited, x) implies is_queued(u, x) || at_most(max, u.min[x]) by {}
                lemma_explored_fits(g, u, visited, first, zero, max, 3);
                assert forall|x: int| 0 <= x < v.min.len() && x != -1 implies #[trigger] is_queued(v, x) || is_done(g, v, x) by {
                    if x == at {
                        assert forall|e: int| 0 <= e < 3 implies #[trigger] link_is_done(g, v, x, e) by {}
                    }
                }
                lemma_goes_on_trans(s, u, v);
            }
            lemma_searched_fits(g, v, visited, zero, max, t, id, pin);
            lemma_goes_on_trans(s, v, t);
            assert forall|w: MazeWalk|
                #[trigger] is_walk(g, w) && at_most(s.min[w.at[0]], zero) && 0 <= w.at.last() < g.vertices@.len() && is_fresh(g, visited, w.at.last()) implies at_most(
                t.arena[id].cost,
                walk_cost(g, w, zero, w.by.len() as int),
            ) by {
                assert(at_most(v.min[w.at[0]], s.min[w.at[0]]));
                assert(at_most(v.min[w.at[0]], zero));
            }
        }
    }
}

/// Whether a list of states goes on from another.
spec fn extends<C>(a: Seq<Solution<C>>, b: Seq<Solution<C>>) -> bool {
    a.len() <= b.len() && forall|i: int| 0 <= i < a.len() ==> #[trigger] b[i] == a[i]
}

proof fn lemma_explored_extends<C: Cost>(g: SparseGraph<C>, s: State<C>, id: int, n: int)
    ensures
        extends(s.arena, explored(g, s, id, n).arena),
    decreases n,
{
    if n > 0 {
        lemma_explored_extends(g, s, id, n - 1);
    }
}

proof fn lemma_reseeded_extends<C: Cost>(s: State<C>, id: Option<usize>, zero: C)
    ensures
        extends(s.arena, reseeded(s, id, zero).arena),
    decreases (match id { Some(k) => k + 1, None => 0 }),
{
    if let Some(k) = id {
        let n = s.arena[k as int];
        if !same_cost(n.cost, zero) {
            if let Some(p) = n.prev {
                if p < k {
                    let t = with_state(s, Solution { cost: zero, vertex: n.vertex, prev: n.prev });
                    lemma_reseeded_extends(t, Some(p), zero);
                    assert(extends(s.arena, t.arena));
                    let r = reseeded(t, Some(p), zero);
                    assert forall|i: int| 0 <= i < s.arena.len() implies #[trigger] r.arena[i] == s.arena[i] by {
                        assert(t.arena[i] == s.arena[i]);
                    }
                }
            }
        }
    }
}

proof fn lemma_reseeded_can_search<C: Cost>(g: SparseGraph<C>, s: State<C>, k: usize, zero: C)
    requires
        can_search(g, s),
        k < s.arena.len(),
    ensures
        can_search(g, reseeded(s, Some(k), zero)),
    decreases k,
{
    let n = s.arena[k as int];
    if !same_cost(n.cost, zero) {
        let new = Solution { cost: zero, vertex: n.vertex, prev: n.prev };
        lemma_with_state_can_search(g, s, new);
        if let Some(p) = n.prev {
            lemma_reseeded_can_search(g, with_state(s, new), p, zero);
        }
    }
}

/// Whether a state was reached by a link from the one that it comes from, and costs that much more.
pub open spec fn is_paid<C: Cost>(g: SparseGraph<C>, arena: Seq<Solution<C>>, i: int) -> bool {
    arena[i].prev matches Some(p) && p < i && exists|e: int| {
        let (target, w) = #[trigger] link_of(g, arena[p as int].vertex as int, e);
        0 <= e < 3 && target == Some(arena[i].vertex) && arena[i].cost == arena[p as int].cost.sum(w)
    }
}

spec fn paid_from<C: Cost>(g: SparseGraph<C>, arena: Seq<Solution<C>>, m: int) -> bool {
    forall|i: int| m <= i < arena.len() ==> #[trigger] is_paid(g, arena, i)
}

proof fn lemma_explored_paid<C: Cost>(g: SparseGraph<C>, s: State<C>, id: int, n: int, m: int)
    requires
        0 <= id < s.arena.len() <= usize::MAX,
        n <= 3,
        paid_from(g, s.arena, m),
        0 <= m,
    ensures
        paid_from(g, explored(g, s, id, n).arena, m),
    decreases n,
{
    if n > 0 {
        lemma_explored_paid(g, s, id, n - 1, m);
        lemma_explored_extends(g, s, id, n - 1);
        let t = explored(g, s, id, n - 1);
        let u = explored(g, s, id, n);
        let from = s.arena[id];
        let (target, w) = link_of(g, from.vertex as int, n - 1);
        if u != t {
            assert forall|i: int| m <= i < u.arena.len() implies #[trigger] is_paid(g, u.arena, i) by {
                if i < t.arena.len() {
                    assert(is_paid(g, t.arena, i));
                    let p = t.arena[i].prev->0;
                    assert(u.arena[p as int] == t.arena[p as int]);
                    let e = choose|e: int| {
                        let (target, w) = #[trigger] link_of(g, t.arena[p as int].vertex as int, e);
                        0 <= e < 3 && target == Some(t.arena[i].vertex) && t.arena[i].cost == t.arena[p as int].cost.sum(w)
                    };
                    assert(link_of(g, u.arena[p as int].vertex as int, e) == link_of(g, t.arena[p as int].vertex as int, e));
                } else {
                    assert(u.arena[id] == from);
                    assert(link_of(g, u.arena[id].vertex as int, n - 1) == (target, w));
                }
            }
        }
    }
}

proof fn lemma_searched_paid<C: Cost>(g: SparseGraph<C>, s: State<C>, visited: Seq<bool>, t: State<C>, id: int, pin: int, m: int)
    requires
        can_search(g, s),
        searched(g, s, visited) == (SearchEnd::Found { s: t, id, pin }),
        t.arena.len() <= usize::MAX,
        paid_from(g, s.arena, m),
        0 <= m,
    ensures
        paid_from(g, t.arena, m),
        extends(s.arena, t.arena),
        can_search(g, t),
        0 <= id < t.arena.len(),
    decreases total_rank(s.min), s.heap.len(),
{
    if s.heap.len() > 0 {
        let first = s.heap[0] as int;
        let u = without_first(s);
        lemma_search_step(g, s);
        assert(s.heap[0] < s.arena.len());
        let at = s.arena[first].vertex as int;
        lemma_searched_grows(g, s, visited);
        if !is_fresh(g, visited, at) {
            let v = if u.min[at].below(s.arena[first].cost) { u } else { explored(g, u, first, 3) };
            if !u.min[at].below(s.arena[first].cost) {
                lemma_explored_lowers(g, u, first, 3);
                lemma_explored_can_search(g, u, first, 3);
                lemma_explored_extends(g, u, first, 3);
                lemma_explored_paid(g, u, first, 3, m);
            }
            lemma_searched_paid(g, v, visited, t, id, pin, m);
            assert forall|i: int| 0 <= i < s.arena.len() implies #[trigger] t.arena[i] == s.arena[i] by {
                assert(v.arena[i] == s.arena[i]);
            }
        }
    }
}

/// What seeding a path again leaves: every vertex on it costs nothing and is to be explored where it cost something.
#[verifier::rlimit(40)]
proof fn lemma_reseeded_fits<C: Cost>(g: SparseGraph<C>, s: State<C>, k: usize, zero: C, max: C, m: int)
    requires
        costs_add_up::<C>(),
        labels_fit(g, s, zero, max, m),
        k < m,
        reseeded(s, Some(k), zero).arena.len() <= usize::MAX,
    ensures
        ({
            let r = reseeded(s, Some(k), zero);
            &&& labels_fit(g, r, zero, max, m)
            &&& goes_on_from(r, s)
            &&& path_is_free(r.arena, r.min, k as int, zero)
            &&& !same_cost(s.arena[k as int].cost, zero) ==> is_queued(r, s.arena[k as int].vertex as int)
            &&& forall|u: int| 0 <= u < s.min.len() && is_queued(s, u) ==> #[trigger] is_queued(r, u)
            &&& forall|u: int| 0 <= u < s.min.len() && is_done(g, s, u) ==> #[trigger] is_queued(r, u) || is_done(g, r, u)
            &&& forall|u: int| 0 <= u < s.min.len() && #[trigger] r.min[u] != s.min[u] ==> is_queued(r, u)
            &&& forall|i: int| s.arena.len() <= i < r.arena.len() ==> #[trigger] is_seed(r, k as int, zero, i)
        }),
    decreases k,
{
    let r = reseeded(s, Some(k), zero);
    let n = s.arena[k as int];
    lemma_reseeded_extends(s, Some(k), zero);
    assert(cost_fits(s, zero, max, k as int));
    if same_cost(n.cost, zero) {
        lemma_goes_on_itself(s);
        assert(origin_fits(s, zero, k as int));
        assert(at_most(n.cost, zero));
    } else {
        let new = Solution { cost: zero, vertex: n.vertex, prev: n.prev };
        let t = with_state(s, new);
        let v = n.vertex as int;
        lemma_same_is_at_most(zero);
        assert(at_most(zero, s.min[v]));
        if let Some(p) = n.prev {
            lemma_reseeded_extends(t, Some(p), zero);
        }
        assert(t.arena.len() <= r.arena.len());
        lemma_add(g, s, new, zero, max, m);
        if let Some(p) = n.prev {
            assert(p < k);
            lemma_reseeded_fits(g, t, p, zero, max, m);
            lemma_goes_on_trans(s, t, r);
            assert(r.arena[k as int] == n);
            assert(at_most(r.min[v], t.min[v]) && at_most(t.min[v], zero));
            assert(r.arena[s.arena.len() as int] == new) by {
                assert(t.arena[s.arena.len() as int] == new);
            }
            assert(path_is_free(r.arena, r.min, k as int, zero));
            assert(path_is_free(r.arena, r.min, s.arena.len() as int, zero));
            assert forall|i: int| s.arena.len() <= i < r.arena.len() implies #[trigger] is_seed(r, k as int, zero, i) by {
                if i == s.arena.len() {
                    assert(on_path(r.arena, k as int, v));
                    lemma_free_path_head(r, p as int, zero);
                } else {
                    assert(is_seed(r, p as int, zero, i));
                }
            }
            assert forall|u: int| 0 <= u < s.min.len() && is_done(g, s, u) implies #[trigger] is_queued(r, u) || is_done(g, r, u) by {
                if u == v {
                    assert(is_queued(t, u));
                } else {
                    assert(is_done(g, t, u));
                }
            }
            assert forall|u: int| 0 <= u < s.min.len() && #[trigger] r.min[u] != s.min[u] implies is_queued(r, u) by {
                if u == v {
                    assert(is_queued(t, u));
                } else {
                    assert(t.min[u] == s.min[u]);
                }
            }
            assert(is_queued(t, v));
            assert forall|u: int| 0 <= u < s.min.len() && is_queued(s, u) implies #[trigger] is_queued(r, u) by {
                assert(is_queued(t, u));
            }
        } else {
            assert(r == t);
            assert(r.arena[k as int] == n);
            assert forall|i: int| s.arena.len() <= i < r.arena.len() implies #[trigger] is_seed(r, k as int, zero, i) by {
                assert(r.arena[i] == new);
                assert(on_path(r.arena, k as int, v));
            }
        }
    }
}

/// Whether a state seeds a vertex of a path: at no cost, and with nothing but free vertices behind it.
spec fn is_seed<C: Cost>(r: State<C>, k: int, zero: C, i: int) -> bool {
    let n = r.arena[i];
    &&& n.cost == zero
    &&& on_path(r.arena, k, n.vertex as int)
    &&& path_is_free(r.arena, r.min, i, zero)
    &&& n.prev matches Some(p) ==> at_most(r.min[r.arena[p as int].vertex as int], zero)
}

proof fn lemma_free_path_head<C: Cost>(r: State<C>, p: int, zero: C)
    requires
        path_is_free(r.arena, r.min, p, zero),
    ensures
        at_most(r.min[r.arena[p].vertex as int], zero),
{
}

proof fn lemma_free_path<C: Cost>(r: State<C>, i: int, zero: C, v: int)
    requires
        path_is_free(r.arena, r.min, i, zero),
        on_path(r.arena, i, v),
    ensures
        at_most(r.min[v], zero),
    decreases i,
{
    if r.arena[i].vertex != v {
        let p = r.arena[i].prev->0;
        lemma_free_path(r, p as int, zero, v);
    }
}

proof fn lemma_path_extends<C>(a: Seq<Solution<C>>, b: Seq<Solution<C>>, id: int, v: int)
    requires
        extends(a, b),
        0 <= id < a.len(),
    ensures
        on_path(a, id, v) == on_path(b, id, v),
    decreases id,
{
    assert(b[id] == a[id]);
    if let Some(p) = a[id].prev {
        if p < id {
            lemma_path_extends(a, b, p as int, v);
        }
    }
}

/// Whether the paths found are those of states that are there.
spec fn all_there<C>(arena: Seq<Solution<C>>, found: Seq<usize>) -> bool {
    forall|j: int| 0 <= j < found.len() ==> #[trigger] found[j] < arena.len()
}

/// The tree and the pins joined of the first paths do not change as the search goes on.
proof fn lemma_tree_extends<C>(g: SparseGraph<C>, a: Seq<Solution<C>>, b: Seq<Solution<C>>, found: Seq<usize>, all: Seq<usize>, n: int)
    requires
        extends(a, b),
        all_there(a, found),
        n <= found.len() <= all.len(),
        forall|j: int| 0 <= j < found.len() ==> #[trigger] all[j] == found[j],
    ensures
        forall|v: int| #[trigger] in_tree(g, a, found, n, v) == in_tree(g, b, all, n, v),
        forall|pin: usize| #[trigger] is_joined(g, a, found, n, pin) == is_joined(g, b, all, n, pin),
{
    assert forall|v: int| #[trigger] in_tree(g, a, found, n, v) == in_tree(g, b, all, n, v) by {
        if in_tree(g, a, found, n, v) && v != g.pin_vertex@[0] {
            let j = choose|j: int| 0 <= j < n && on_path(a, (#[trigger] found[j]) as int, v);
            lemma_path_extends(a, b, found[j] as int, v);
            assert(all[j] == found[j]);
        }
        if in_tree(g, b, all, n, v) && v != g.pin_vertex@[0] {
            let j = choose|j: int| 0 <= j < n && on_path(b, (#[trigger] all[j]) as int, v);
            assert(all[j] == found[j]);
            lemma_path_extends(a, b, found[j] as int, v);
            assert(found[j] < a.len());
        }
    }
    assert forall|pin: usize| #[trigger] is_joined(g, a, found, n, pin) == is_joined(g, b, all, n, pin) by {
        if is_joined(g, a, found, n, pin) && pin != 0 {
            let j = choose|j: int| 0 <= j < n && g.vertex_pin@[a[(#[trigger] found[j]) as int].vertex as int] == Some(pin);
            assert(all[j] == found[j]);
            assert(b[found[j] as int] == a[found[j] as int]);
        }
        if is_joined(g, b, all, n, pin) && pin != 0 {
            let j = choose|j: int| 0 <= j < n && g.vertex_pin@[b[(#[trigger] all[j]) as int].vertex as int] == Some(pin);
            assert(all[j] == found[j]);
            assert(b[found[j] as int] == a[found[j] as int]);
        }
    }
}

/// Whether a state costs nothing at a vertex of the tree, or what the one before it costs and a link.
spec fn has_origin<C: Cost>(g: SparseGraph<C>, arena: Seq<Solution<C>>, found: Seq<usize>, n: int, zero: C, i: int) -> bool {
    (arena[i].cost == zero && in_tree(g, arena, found, n, arena[i].vertex as int)) || is_paid(g, arena, i)
}

/// Every state is the end of a walk from the tree that costs as much.
proof fn lemma_has_walk<C: Cost>(g: SparseGraph<C>, arena: Seq<Solution<C>>, found: Seq<usize>, n: int, zero: C, i: int) -> (w: MazeWalk)
    requires
        graph_ok(g),
        arena_ok(arena, g.vertices@.len() as int),
        0 <= i < arena.len(),
        forall|j: int| 0 <= j <= i ==> #[trigger] has_origin(g, arena, found, n, zero, j),
    ensures
        is_walk(g, w),
        in_tree(g, arena, found, n, w.at[0]),
        w.at.last() == arena[i].vertex,
        walk_cost(g, w, zero, w.by.len() as int) == arena[i].cost,
    decreases i,
{
    assert(has_origin(g, arena, found, n, zero, i));
    assert(arena[i].vertex < g.vertices@.len());
    if is_paid(g, arena, i) {
        let p = arena[i].prev->0 as int;
        let e = choose|e: int| {
            let (target, w) = #[trigger] link_of(g, arena[p].vertex as int, e);
            0 <= e < 3 && target == Some(arena[i].vertex) && arena[i].cost == arena[p].cost.sum(w)
        };
        let b = lemma_has_walk(g, arena, found, n, zero, p);
        let w = MazeWalk { at: b.at.push(arena[i].vertex as int), by: b.by.push(e) };
        assert(arena[p].vertex < g.vertices@.len());
        assert(w.at[0] == b.at[0]);
        assert forall|k: int| 0 <= k < w.by.len() implies #[trigger] follows_link(g, w, k) by {
            if k < b.by.len() {
                assert(follows_link(g, b, k));
            } else {
                assert(w.at[k] == b.at.last());
            }
        }
        lemma_walk_prefix(g, b, w, zero, b.by.len() as int);
        assert(w.at[b.by.len() as int] == arena[p].vertex);
        w
    } else {
        MazeWalk { at: seq![arena[i].vertex as int], by: Seq::empty() }
    }
}

proof fn lemma_walk_prefix<C: Cost>(g: SparseGraph<C>, a: MazeWalk, b: MazeWalk, zero: C, n: int)
    requires
        0 <= n <= a.by.len() <= b.by.len(),
        a.at.len() == a.by.len() + 1,
        b.at.len() == b.by.len() + 1,
        forall|k: int| 0 <= k < a.at.len() ==> #[trigger] a.at[k] == b.at[k],
        forall|k: int| 0 <= k < a.by.len() ==> #[trigger] a.by[k] == b.by[k],
    ensures
        walk_cost(g, a, zero, n) == walk_cost(g, b, zero, n),
    decreases n,
{
    if n > 0 {
        lemma_walk_prefix(g, a, b, zero, n - 1);
        assert(a.at[n - 1] == b.at[n - 1] && a.by[n - 1] == b.by[n - 1]);
    }
}

/// What holds of a search between two pins: every vertex of the tree costs nothing, the pins visited are those joined,
/// and every state comes from the tree.
spec fn join_fits<C: Cost>(g: SparseGraph<C>, s: State<C>, visited: Seq<bool>, found: Seq<usize>, zero: C, max: C) -> bool {
    let n = found.len() as int;
    &&& search_fits(g, s, visited, zero, max)
    &&& visited.len() == g.pseudo_pins@.len()
    &&& all_there(s.arena, found)
    &&& forall|v: int| 0 <= v < s.min.len() && #[trigger] in_tree(g, s.arena, found, n, v) ==> at_most(s.min[v], zero)
    &&& forall|k: usize| k < visited.len() ==> visited[k as int] == #[trigger] is_joined(g, s.arena, found, n, k)
    &&& forall|i: int| 0 <= i < s.arena.len() ==> #[trigger] has_origin(g, s.arena, found, n, zero, i)
}

/// Whether a path joins a new pin at the least cost of all walks from the tree to one, and is itself such a walk.
pub open spec fn joins_at_least_cost<C: Cost>(g: SparseGraph<C>, arena: Seq<Solution<C>>, found: Seq<usize>, i: int, zero: C) -> bool {
    let end = arena[found[i] as int];
    &&& g.vertex_pin@[end.vertex as int] matches Some(pin) && !is_joined(g, arena, found, i, pin)
    &&& forall|w: MazeWalk| #[trigger] leads_to_a_new_pin(g, arena, found, i, w) ==> at_most(end.cost, walk_cost(g, w, zero, w.by.len() as int))
    &&& exists|w: MazeWalk|
        #[trigger] leads_to_a_new_pin(g, arena, found, i, w) && w.at.last() == end.vertex && walk_cost(g, w, zero, w.by.len() as int) == end.cost
}

proof fn lemma_joined_extends<C: Cost>(g: SparseGraph<C>, s: State<C>, visited: Seq<bool>, found: Seq<usize>, left: nat, zero: C, arena: Seq<Solution<C>>, all: Seq<usize>)
    requires
        can_search(g, s),
        joined(g, s, visited, found, left, zero) == (JoinEnd::Done { arena, found: all }),
    ensures
        s.arena.len() <= arena.len(),
        arena.len() <= usize::MAX ==> extends(s.arena, arena),
        all.len() == found.len() + left,
        forall|j: int| 0 <= j < found.len() ==> #[trigger] all[j] == found[j],
    decreases left,
{
    if left > 0 {
        if let SearchEnd::Found { s: t, id, pin } = searched(g, s, visited) {
            lemma_searched_grows(g, s, visited);
            lemma_search_can(g, s, visited, t, id, pin);
            let r = reseeded(t, Some(id as usize), zero);
            lemma_reseeded_extends(t, Some(id as usize), zero);
            lemma_reseeded_can_search(g, t, id as usize, zero);
            lemma_joined_extends(g, r, visited.update(pin, true), found.push(id as usize), (left - 1) as nat, zero, arena, all);
            assert forall|j: int| 0 <= j < found.len() implies #[trigger] all[j] == found[j] by {
                assert(found.push(id as usize)[j] == found[j]);
            }
            if arena.len() <= usize::MAX {
                assert(paid_from(g, s.arena, s.arena.len() as int));
                lemma_searched_paid(g, s, visited, t, id, pin, s.arena.len() as int);
                assert forall|i: int| 0 <= i < s.arena.len() implies #[trigger] arena[i] == s.arena[i] by {
                    assert(t.arena[i] == s.arena[i]);
                    assert(r.arena[i] == t.arena[i]);
                }
            }
        }
    }
}

proof fn lemma_search_can<C: Cost>(g: SparseGraph<C>, s: State<C>, visited: Seq<bool>, t: State<C>, id: int, pin: int)
    requires
        can_search(g, s),
        searched(g, s, visited) == (SearchEnd::Found { s: t, id, pin }),
    ensures
        can_search(g, t),
        0 <= id < t.arena.len(),
        id <= usize::MAX,
    decreases total_rank(s.min), s.heap.len(),
{
    if s.heap.len() > 0 {
        let first = s.heap[0] as int;
        let u = without_first(s);
        lemma_search_step(g, s);
        assert(s.heap[0] < s.arena.len());
        let at = s.arena[first].vertex as int;
        if !is_fresh(g, visited, at) {
            let v = if u.min[at].below(s.arena[first].cost) { u } else { explored(g, u, first, 3) };
            if !u.min[at].below(s.arena[first].cost) {
                lemma_explored_lowers(g, u, first, 3);
                lemma_explored_can_search(g, u, first, 3);
            }
            lemma_search_can(g, v, visited, t, id, pin);
        }
    }
}

/// What joining a pin leaves.
#[verifier::rlimit(60)]
proof fn lemma_join_step<C: Cost>(g: SparseGraph<C>, s: State<C>, visited: Seq<bool>, found: Seq<usize>, zero: C, max: C, t: State<C>, id: usize, pin: usize)
    requires
        costs_add_up::<C>(),
        links_lower_nothing(g),
        join_fits(g, s, visited, found, zero, max),
        searched(g, s, visited) == (SearchEnd::Found { s: t, id: id as int, pin: pin as int }),
        reseeded(t, Some(id), zero).arena.len() <= usize::MAX,
        !same_cost(t.arena[id as int].cost, zero),
    ensures
        join_fits(g, reseeded(t, Some(id), zero), visited.update(pin as int, true), found.push(id), zero, max),
{
    let n = found.len() as int;
    let r = reseeded(t, Some(id), zero);
    let more = found.push(id);
    let seen = visited.update(pin as int, true);
    lemma_reseeded_extends(t, Some(id), zero);
    lemma_searched_fits(g, s, visited, zero, max, t, id as int, pin as int);
    assert(paid_from(g, s.arena, s.arena.len() as int));
    lemma_searched_paid(g, s, visited, t, id as int, pin as int, s.arena.len() as int);
    lemma_reseeded_fits(g, t, id, zero, max, t.arena.len() as int);
    let at = t.arena[id as int].vertex as int;
    assert(extends(s.arena, r.arena)) by {
        assert forall|i: int| 0 <= i < s.arena.len() implies #[trigger] r.arena[i] == s.arena[i] by {
            assert(t.arena[i] == s.arena[i]);
        }
    }
    assert(g.vertex_pin@[at] is Some);
    lemma_tree_extends(g, s.arena, r.arena, found, more, n);
    // the search
    assert forall|i: int| 0 <= i < r.arena.len() implies #[trigger] origin_fits(r, zero, i) by {
        if i >= t.arena.len() {
            assert(is_seed(r, id as int, zero, i));
        }
    }
    assert forall|u: int| 0 <= u < r.min.len() && u != -1 implies #[trigger] is_queued(r, u) || is_done(g, r, u) by {
        if u != at {
            assert(is_queued(t, u) || is_done(g, t, u));
        }
    }
    assert forall|u: int| 0 <= u < r.min.len() && u != -1 && #[trigger] is_fresh(g, seen, u) implies is_queued(r, u) || at_most(max, r.min[u]) by {
        assert(is_fresh(g, visited, u));
        assert(u != at);
        assert(is_queued(t, u) || at_most(max, t.min[u]));
        if !is_queued(r, u) {
            assert(r.min[u] == t.min[u]);
        }
    }
    // the tree
    assert forall|v: int| 0 <= v < r.min.len() && #[trigger] in_tree(g, r.arena, more, n + 1, v) implies at_most(r.min[v], zero) by {
        if in_tree(g, r.arena, more, n, v) {
            assert(in_tree(g, s.arena, found, n, v));
            assert(at_most(t.min[v], s.min[v]) && at_most(s.min[v], zero));
            assert(at_most(t.min[v], zero));
            assert(at_most(r.min[v], t.min[v]));
        } else {
            let j = choose|j: int| 0 <= j < n + 1 && on_path(r.arena, (#[trigger] more[j]) as int, v);
            assert(j == n);
            lemma_free_path(r, id as int, zero, v);
        }
    }
    assert(r.arena[id as int] == t.arena[id as int]);
    assert forall|k: usize| k < seen.len() implies seen[k as int] == #[trigger] is_joined(g, r.arena, more, n + 1, k) by {
        assert(is_joined(g, s.arena, found, n, k) == is_joined(g, r.arena, more, n, k));
        if is_joined(g, r.arena, more, n, k) && k != 0 {
            let j = choose|j: int| 0 <= j < n && g.vertex_pin@[r.arena[(#[trigger] more[j]) as int].vertex as int] == Some(k);
            assert(0 <= j < n + 1);
        }
        if k == pin {
            assert(more[n] == id);
        }
        if is_joined(g, r.arena, more, n + 1, k) && k != 0 {
            let j = choose|j: int| 0 <= j < n + 1 && g.vertex_pin@[r.arena[(#[trigger] more[j]) as int].vertex as int] == Some(k);
            if j == n {
                assert(k == pin);
            } else {
                assert(is_joined(g, r.arena, more, n, k));
            }
        }
    }
    assert forall|i: int| 0 <= i < r.arena.len() implies #[trigger] has_origin(g, r.arena, more, n + 1, zero, i) by {
        if i < t.arena.len() {
            assert(r.arena[i] == t.arena[i]);
            if i < s.arena.len() {
                assert(has_origin(g, s.arena, found, n, zero, i));
                assert(t.arena[i] == s.arena[i]);
                if is_paid(g, s.arena, i) {
                    lemma_still_paid(g, s.arena, r.arena, i);
                } else {
                    let v = s.arena[i].vertex as int;
                    assert(in_tree(g, s.arena, found, n, v));
                    assert(in_tree(g, r.arena, more, n, v));
                    lemma_tree_grows(g, r.arena, more, n, v);
                }
            } else {
                assert(is_paid(g, t.arena, i));
                lemma_still_paid(g, t.arena, r.arena, i);
            }
        } else {
            assert(is_seed(r, id as int, zero, i));
            assert(on_path(r.arena, more[n] as int, r.arena[i].vertex as int));
        }
    }
}

proof fn lemma_tree_grows<C>(g: SparseGraph<C>, arena: Seq<Solution<C>>, found: Seq<usize>, n: int, v: int)
    requires
        in_tree(g, arena, found, n, v),
    ensures
        in_tree(g, arena, found, n + 1, v),
{
    if v != g.pin_vertex@[0] {
        let j = choose|j: int| 0 <= j < n && on_path(arena, (#[trigger] found[j]) as int, v);
        assert(0 <= j < n + 1);
    }
}

proof fn lemma_still_paid<C: Cost>(g: SparseGraph<C>, a: Seq<Solution<C>>, b: Seq<Solution<C>>, i: int)
    requires
        extends(a, b),
        0 <= i < a.len(),
        is_paid(g, a, i),
    ensures
        is_paid(g, b, i),
{
    assert(b[i] == a[i]);
    let p = a[i].prev->0 as int;
    assert(b[p] == a[p]);
    let e = choose|e: int| {
        let (target, w) = #[trigger] link_of(g, a[p].vertex as int, e);
        0 <= e < 3 && target == Some(a[i].vertex) && a[i].cost == a[p].cost.sum(w)
    };
    assert(link_of(g, b[p].vertex as int, e) == link_of(g, a[p].vertex as int, e));
}

#[verifier::rlimit(60)]
proof fn lemma_joined_at_least_cost<C: Cost>(
    g: SparseGraph<C>, s: State<C>, visited: Seq<bool>, found: Seq<usize>, left: nat, zero: C, max: C, arena: Seq<Solution<C>>, all: Seq<usize>, i: int,
)
    requires
        costs_add_up::<C>(),
        links_lower_nothing(g),
        join_fits(g, s, visited, found, zero, max),
        joined(g, s, visited, found, left, zero) == (JoinEnd::Done { arena, found: all }),
        arena.len() <= usize::MAX,
        found.len() <= i < all.len(),
        forall|j: int| found.len() <= j < i ==> !same_cost(arena[(#[trigger] all[j]) as int].cost, zero),
    ensures
        joins_at_least_cost(g, arena, all, i, zero),
    decreases left,
{
    lemma_joined_extends(g, s, visited, found, left, zero, arena, all);
    if let SearchEnd::Found { s: t, id, pin } = searched(g, s, visited) {
        lemma_search_can(g, s, visited, t, id, pin);
        let k = id as usize;
        let r = reseeded(t, Some(k), zero);
        let (seen, more) = (visited.update(pin, true), found.push(k));
        lemma_reseeded_extends(t, Some(k), zero);
        lemma_reseeded_can_search(g, t, k, zero);
        lemma_joined_extends(g, r, seen, more, (left - 1) as nat, zero, arena, all);
        lemma_searched_fits(g, s, visited, zero, max, t, id, pin);
        let n = found.len() as int;
        assert(all[n] == more[n]);
        assert(r.arena[id] == t.arena[id]);
        assert(arena[id] == r.arena[id]);
        if n < i {
            lemma_join_step(g, s, visited, found, zero, max, t, k, pin as usize);
            lemma_joined_at_least_cost(g, r, seen, more, (left - 1) as nat, zero, max, arena, all, i);
        } else {
            lemma_tree_extends(g, s.arena, arena, found, all, n);
            let end = arena[all[i] as int];
            assert(end == t.arena[id]);
            let p = pin as usize;
            assert(p < visited.len()) by {
                assert(t.arena[id].vertex < g.vertices@.len());
                assert(g.vertex_pin@[t.arena[id].vertex as int] is Some);
            }
            assert(visited[p as int] == is_joined(g, s.arena, found, n, p));
            assert forall|w: MazeWalk| #[trigger] leads_to_a_new_pin(g, arena, all, i, w) implies at_most(end.cost, walk_cost(g, w, zero, w.by.len() as int)) by {
                assert(is_walk(g, w));
                assert(in_tree(g, s.arena, found, n, w.at[0]));
                let q = g.vertex_pin@[w.at.last()]->0;
                assert(g.vertex_pin@[w.at.last()] is Some);
                assert(q < visited.len());
                assert(visited[q as int] == is_joined(g, s.arena, found, n, q));
                assert(is_fresh(g, visited, w.at.last()));
            }
            assert(paid_from(g, s.arena, s.arena.len() as int));
            lemma_searched_paid(g, s, visited, t, id, pin, s.arena.len() as int);
            lemma_tree_extends(g, s.arena, t.arena, found, found, n);
            assert forall|j: int| 0 <= j <= id implies #[trigger] has_origin(g, t.arena, found, n, zero, j) by {
                if j < s.arena.len() {
                    assert(has_origin(g, s.arena, found, n, zero, j));
                    assert(t.arena[j] == s.arena[j]);
                    if is_paid(g, s.arena, j) {
                        lemma_still_paid(g, s.arena, t.arena, j);
                    } else {
                        assert(in_tree(g, s.arena, found, n, s.arena[j].vertex as int));
                    }
                } else {
                    assert(is_paid(g, t.arena, j));
                }
            }
            let w = lemma_has_walk(g, t.arena, found, n, zero, id);
            assert(in_tree(g, s.arena, found, n, w.at[0]) == in_tree(g, t.arena, found, n, w.at[0]));
            assert(in_tree(g, s.arena, found, n, w.at[0]) == in_tree(g, arena, all, n, w.at[0]));
            assert(leads_to_a_new_pin(g, arena, all, i, w));
        }
    }
}

/// Each pin after the first is joined by a path that costs no more than any walk from the tree built so far, from
/// whichever of its vertices, to any pin that is not yet joined; and the path is such a walk itself.
///
/// This holds where the links lower no cost and the paths before have cost something: a pin that is met at no cost is
/// not explored from.
pub proof fn each_pin_joins_the_tree_at_least_cost<C: Cost>(g: SparseGraph<C>, zero: C, max: C, arena: Seq<Solution<C>>, found: Seq<usize>, i: int)
    requires
        costs_add_up::<C>(),
        graph_ok(g),
        g.pseudo_pins@.len() > 0,
        links_lower_nothing(g),
        at_most(zero, max),
        search_end(g, zero, max) == (JoinEnd::Done { arena, found }),
        arena.len() <= usize::MAX,
        0 <= i < found.len(),
        forall|j: int| 0 <= j < i ==> !same_cost(arena[(#[trigger] found[j]) as int].cost, zero),
    ensures
        joins_at_least_cost(g, arena, found, i, zero),
{
    let n = g.pseudo_pins@.len();
    let visited = Seq::new(n, |k: int| k == 0);
    let s0 = State { arena: Seq::empty(), heap: Seq::empty(), min: Seq::new(g.vertices@.len(), |u: int| max) };
    let first = Solution { cost: zero, vertex: g.pin_vertex@[0], prev: None };
    let s = seeded(g, zero, max);
    lemma_same_is_at_most(max);
    lemma_same_is_at_most(zero);
    assert(g.pin_vertex@[0] < g.vertices@.len());
    assert(labels_fit(g, s0, zero, max, 0));
    lemma_add(g, s0, first, zero, max, 0);
    let at = g.pin_vertex@[0] as int;
    assert(s.arena.len() == 1 && s.arena[0] == first);
    assert forall|k: int| 0 <= k < s.arena.len() implies #[trigger] origin_fits(s, zero, k) by {}
    assert forall|u: int| 0 <= u < s.min.len() && u != -1 implies #[trigger] is_queued(s, u) || is_done(g, s, u) by {
        if u != at {
            assert forall|e: int| 0 <= e < 3 implies #[trigger] link_is_done(g, s, u, e) by {
                if let Some(v) = link_of(g, u, e).0 {
                    assert(g.edges@[u] == g.edges@[u]);
                    assert(s.min[u] == max);
                    assert(at_most(s.min[v as int], max) && at_most(max, max.sum(link_of(g, u, e).1)));
                }
            }
        }
    }
    assert forall|u: int| 0 <= u < s.min.len() && u != -1 && #[trigger] is_fresh(g, visited, u) implies is_queued(s, u) || at_most(max, s.min[u]) by {
        if u != at {
            assert(s.min[u] == s0.min[u]);
        }
    }
    let none: Seq<usize> = Seq::empty();
    assert forall|k: usize| k < visited.len() implies visited[k as int] == #[trigger] is_joined(g, s.arena, none, 0, k) by {}
    assert forall|k: int| 0 <= k < s.arena.len() implies #[trigger] has_origin(g, s.arena, none, 0, zero, k) by {}
    assert(join_fits(g, s, visited, none, zero, max));
    lemma_joined_at_least_cost(g, s, visited, none, (n - 1) as nat, zero, max, arena, found, i);
}

// ---- the tree of the paths ----

/// A tree in the making: its nodes, the node of every vertex that has one, and the root.
#[verifier::ext_equal]
pub struct Growing {
    pub nodes: Seq<SNode>,
    pub created: Seq<Option<int>>,
    pub root: Option<int>,
}

/// The point of a vertex.
pub open spec fn vertex_point<C>(g: SparseGraph<C>, v: int) -> Point {
    Point { x: g.vertices@[v].x, y: g.vertices@[v].y }
}

/// A node with a child added.
pub open spec fn with_kid(n: SNode, last: Option<int>) -> SNode {
    match last {
        Some(l) => SNode { children: n.children.push(l), ..n },
        None => n,
    }
}

/// A tree after a path is walked back from a state to the first vertex that has a node: every new node
/// takes the one before as its child, and both ends of a path take the layers of their pins.
pub open spec fn walked<C>(g: SparseGraph<C>, arena: Seq<Solution<C>>, t: Growing, id: int, last: Option<int>) -> Result<Growing, MazeError>
    decreases id,
{
    let s = arena[id];
    let v = s.vertex as int;
    match t.created[v] {
        Some(e) => Ok(Growing { nodes: t.nodes.update(e, with_kid(t.nodes[e], last)), ..t }),
        None => {
            let me = t.nodes.len() as int;
            let is_end = last is None || s.prev is None;
            if is_end && g.vertex_pin@[v] is None {
                Err(MazeError::NoPinAtEnd)
            } else {
                let fixed = if is_end { g.pseudo_pins@[g.vertex_pin@[v]->0 as int].layers } else { no_layers() };
                let n = with_kid(SNode { p: vertex_point(g, v), fixed, children: Seq::empty() }, last);
                let u = Growing { nodes: t.nodes.push(n), created: t.created.update(v, Some(me)), root: if s.prev is None { Some(me) } else { t.root } };
                match s.prev {
                    Some(p) => if p < id { walked(g, arena, u, p as int, Some(me)) } else { Ok(u) },
                    None => Ok(u),
                }
            }
        },
    }
}

/// A tree after the first `n` paths are walked.
pub open spec fn all_walked<C>(g: SparseGraph<C>, arena: Seq<Solution<C>>, found: Seq<usize>, n: int) -> Result<Growing, MazeError>
    decreases n,
{
    if n <= 0 {
        Ok(Growing { nodes: Seq::empty(), created: Seq::new(g.vertices@.len(), |v: int| None::<int>), root: None })
    } else {
        match all_walked(g, arena, found, n - 1) {
            Ok(t) => walked(g, arena, t, found[n - 1] as int, None),
            Err(e) => Err(e),
        }
    }
}

/// Nodes after the `ci`-th child of `n`, at the same place, is folded into `n`: its children come last, and
/// its layers count only where `n` has none.
pub open spec fn folded(nodes: Seq<SNode>, n: int, ci: int) -> Seq<SNode> {
    let c = nodes[nodes[n].children[ci]];
    nodes.update(
        n,
        SNode {
            fixed: if c.fixed.valid() && !nodes[n].fixed.valid() { c.fixed } else { nodes[n].fixed },
            children: (nodes[n].children + c.children).remove(ci),
            ..nodes[n]
        },
    )
}

/// Nodes after every child of `n` from the `ci`-th on that stands at its place is folded in, in one pass;
/// no more than `fuel` of them.
pub open spec fn absorbed(nodes: Seq<SNode>, n: int, ci: int, fuel: nat) -> Seq<SNode>
    decreases fuel, nodes[n].children.len() - ci,
{
    if ci < 0 || ci >= nodes[n].children.len() {
        nodes
    } else if nodes[n].p == nodes[nodes[n].children[ci]].p {
        if fuel == 0 { nodes } else { absorbed(folded(nodes, n, ci), n, ci, (fuel - 1) as nat) }
    } else {
        absorbed(nodes, n, ci + 1, fuel)
    }
}

/// Nodes after folding a node and all below it.
pub open spec fn fold_below(nodes: Seq<SNode>, rank: Seq<int>, n: int) -> Seq<SNode>
    decreases rank[n], 1int, 0int,
{
    let a = absorbed(nodes, n, 0, nodes.len());
    fold_each(a, rank, n, a[n].children, 0)
}

pub open spec fn fold_each(nodes: Seq<SNode>, rank: Seq<int>, n: int, list: Seq<int>, k: int) -> Seq<SNode>
    decreases rank[n], 0int, list.len() - k,
{
    if 0 <= k < list.len() && 0 <= rank[list[k]] < rank[n] {
        fold_each(fold_below(nodes, rank, list[k]), rank, n, list, k + 1)
    } else {
        nodes
    }
}

/// Whether a node is a mere stop on a straight run across dimension `d`: it has no layers and one child
/// that is aligned with it.
pub open spec fn is_stop(nodes: Seq<SNode>, n: int, d: int) -> bool {
    !nodes[n].fixed.valid() && nodes[n].children.len() == 1 && coord(nodes[n].p, 1 - d) == coord(nodes[nodes[n].children[0]].p, 1 - d)
}

/// The end of a straight run.
pub open spec fn run_end(nodes: Seq<SNode>, rank: Seq<int>, n: int, d: int) -> int
    decreases rank[n],
{
    if is_stop(nodes, n, d) && 0 <= rank[nodes[n].children[0]] < rank[n] { run_end(nodes, rank, nodes[n].children[0], d) } else { n }
}

/// Nodes after the first `k` children of `n` are replaced by the ends of the straight runs below them.
pub open spec fn runs_skipped(nodes: Seq<SNode>, rank: Seq<int>, n: int, k: int) -> Seq<SNode>
    decreases k,
{
    if k <= 0 {
        nodes
    } else {
        let a = runs_skipped(nodes, rank, n, k - 1);
        let child = a[n].children[k - 1];
        let d = if a[n].p.y == a[child].p.y { 0int } else { 1int };
        a.update(n, SNode { children: a[n].children.update(k - 1, run_end(a, rank, child, d)), ..a[n] })
    }
}

/// Nodes after skipping the straight runs below a node and all below it.
pub open spec fn skip_below(nodes: Seq<SNode>, rank: Seq<int>, n: int) -> Seq<SNode>
    decreases rank[n], 1int, 0int,
{
    let a = runs_skipped(nodes, rank, n, nodes[n].children.len() as int);
    skip_each(a, rank, n, a[n].children, 0)
}

pub open spec fn skip_each(nodes: Seq<SNode>, rank: Seq<int>, n: int, list: Seq<int>, k: int) -> Seq<SNode>
    decreases rank[n], 0int, list.len() - k,
{
    if 0 <= k < list.len() && 0 <= rank[list[k]] < rank[n] {
        skip_each(skip_below(nodes, rank, list[k]), rank, n, list, k + 1)
    } else {
        nodes
    }
}

/// A tree after its clean-up.
pub open spec fn cleaned(nodes: Seq<SNode>, root: int) -> Seq<SNode> {
    let rank = choose|rank: Seq<int>| #[trigger] ranked(nodes, rank);
    skip_below(fold_below(nodes, rank, root), rank, root)
}

proof fn lemma_update_children(nodes: Seq<SteinerNode>, n: int, a: SteinerNode)
    requires
        0 <= n < nodes.len(),
    ensures
        snodes(nodes.update(n, a)) == snodes(nodes).update(n, snode(a)),
{
    assert(snodes(nodes.update(n, a)) =~= snodes(nodes).update(n, snode(a)));
}

proof fn lemma_ranked_update(nodes: Seq<SNode>, rank: Seq<int>, n: int, a: SNode)
    requires
        ranked(nodes, rank),
        0 <= n < nodes.len(),
        forall|k: int| 0 <= k < a.children.len() ==> 0 <= #[trigger] a.children[k] < nodes.len() && rank[a.children[k]] < rank[n],
    ensures
        ranked(nodes.update(n, a), rank),
{
    let b = nodes.update(n, a);
    assert forall|m: int, k: int| 0 <= m < b.len() && 0 <= k < b[m].children.len() implies 0 <= #[trigger] b[m].children[k] < b.len() && rank[b[m].children[k]] < rank[m] by {
        if m == n {
            assert(a.children[k] == b[m].children[k]);
        } else {
            assert(nodes[m].children[k] == b[m].children[k]);
        }
    }
}

fn copy_places(v: &Vec<usize>) -> (r: Vec<usize>)
    ensures
        r@ == v@,
{
    crate::vecs::copy_vec(v)
}

fn absorb(nodes: &mut Vec<SteinerNode>, n: usize, Ghost(rank): Ghost<Seq<int>>)
    requires
        ranked(snodes(old(nodes)@), rank),
        n < old(nodes)@.len(),
    ensures
        snodes(final(nodes)@) == absorbed(snodes(old(nodes)@), n as int, 0, old(nodes)@.len()),
        ranked(snodes(final(nodes)@), rank),
{
    let total: usize = nodes.len();
    let ghost goal = absorbed(snodes(nodes@), n as int, 0, total as nat);
    let mut fuel: usize = total;
    let mut ci: usize = 0;
    loop
        invariant_except_break
            ranked(snodes(nodes@), rank),
            nodes@.len() == total,
            n < total,
            absorbed(snodes(nodes@), n as int, ci as int, fuel as nat) == goal,
        ensures
            ranked(snodes(nodes@), rank),
            snodes(nodes@) == goal,
        decreases fuel, nodes@[n as int].children@.len() - ci,
    {
        let ghost s = snodes(nodes@);
        assert(s[n as int].children.len() == nodes@[n as int].children@.len());
        if ci >= nodes[n].children.len() {
            break;
        }
        let child: usize = nodes[n].children[ci];
        assert(s[n as int].children[ci as int] == child);
        if nodes[n].p == nodes[child].p {
            if fuel == 0 {
                break;
            }
            fuel -= 1;
            let mut children = copy_places(&nodes[n].children);
            let mut grand = copy_places(&nodes[child].children);
            let ghost all = children@ + grand@;
            children.append(&mut grand);
            let _ = children.remove(ci);
            let cf = nodes[child].fixed;
            let nf = nodes[n].fixed;
            let fixed = if cf.is_valid() && !nf.is_valid() { cf } else { nf };
            let ghost new = SteinerNode { p: nodes@[n as int].p, fixed, children };
            proof {
                let f = folded(s, n as int, ci as int);
                assert(children@ =~= all.remove(ci as int));
                assert(snode(new).children =~= (s[n as int].children + s[child as int].children).remove(ci as int)) by {
                    assert(all.map_values(|c: usize| c as int) =~= s[n as int].children + s[child as int].children);
                    assert(all.remove(ci as int).map_values(|c: usize| c as int) =~= all.map_values(|c: usize| c as int).remove(ci as int));
                }
                lemma_update_children(nodes@, n as int, new);
                assert forall|k: int| 0 <= k < snode(new).children.len() implies 0 <= #[trigger] snode(new).children[k] < s.len() && rank[snode(new).children[k]] < rank[n as int] by {
                    let both = s[n as int].children + s[child as int].children;
                    let j = if k < ci { k } else { k + 1 };
                    assert(snode(new).children[k] == both[j]);
                    if j < s[n as int].children.len() {
                        assert(both[j] == s[n as int].children[j]);
                    } else {
                        assert(both[j] == s[child as int].children[j - s[n as int].children.len()]);
                    }
                }
                lemma_ranked_update(s, rank, n as int, snode(new));
            }
            let p = nodes[n].p;
            nodes.set(n, SteinerNode { p, fixed, children });
        } else {
            ci += 1;
        }
    }
}

fn fold_at(nodes: &mut Vec<SteinerNode>, n: usize, Ghost(rank): Ghost<Seq<int>>)
    requires
        ranked(snodes(old(nodes)@), rank),
        n < old(nodes)@.len(),
    ensures
        snodes(final(nodes)@) == fold_below(snodes(old(nodes)@), rank, n as int),
        ranked(snodes(final(nodes)@), rank),
    decreases rank[n as int],
{
    assert(rank[n as int] >= 0);
    absorb(nodes, n, Ghost(rank));
    let list = copy_places(&nodes[n].children);
    let ghost spec_list = snodes(nodes@)[n as int].children;
    let ghost goal = fold_each(snodes(nodes@), rank, n as int, spec_list, 0);
    assert(spec_list.len() == list@.len());
    proof {
        let s = snodes(nodes@);
        assert forall|k: int| 0 <= k < list@.len() implies #[trigger] spec_list[k] == list@[k] && 0 <= spec_list[k] < nodes@.len() && rank[spec_list[k]] < rank[n as int] by {
            assert(s[n as int].children[k] == list@[k]);
        }
    }
    let mut k: usize = 0;
    while k < list.len()
        invariant
            ranked(snodes(nodes@), rank),
            rank[n as int] >= 0,
            list@.len() == spec_list.len(),
            forall|k: int| 0 <= k < list@.len() ==> #[trigger] spec_list[k] == list@[k] && 0 <= spec_list[k] < nodes@.len() && rank[spec_list[k]] < rank[n as int],
            k <= list@.len(),
            fold_each(snodes(nodes@), rank, n as int, spec_list, k as int) == goal,
        decreases list@.len() - k,
    {
        let c: usize = list[k];
        assert(spec_list[k as int] == c);
        assert(rank[c as int] >= 0);
        fold_at(nodes, c, Ghost(rank));
        k += 1;
    }
}

fn find_run_end(nodes: &Vec<SteinerNode>, start: usize, d: usize, Ghost(rank): Ghost<Seq<int>>) -> (r: usize)
    requires
        ranked(snodes(nodes@), rank),
        start < nodes@.len(),
        d <= 1,
    ensures
        r == run_end(snodes(nodes@), rank, start as int, d as int),
        r < nodes@.len(),
        rank[r as int] <= rank[start as int],
{
    let ghost s = snodes(nodes@);
    let mut n: usize = start;
    assert(rank[n as int] >= 0);
    proof {
        if nodes@[n as int].children@.len() > 0 {
            assert(s[n as int].children[0] == nodes@[n as int].children@[0]);
        }
    }
    while !nodes[n].fixed.is_valid() && nodes[n].children.len() == 1 && nodes[n].p.get(1 - d) == nodes[nodes[n].children[0]].p.get(1 - d)
        invariant
            s == snodes(nodes@),
            ranked(s, rank),
            n < nodes@.len(),
            d <= 1,
            0 <= rank[n as int] <= rank[start as int],
            nodes@[n as int].children@.len() > 0 ==> nodes@[n as int].children@[0] < nodes@.len(),
            run_end(s, rank, n as int, d as int) == run_end(s, rank, start as int, d as int),
        decreases rank[n as int],
    {
        let c: usize = nodes[n].children[0];
        assert(s[n as int].children[0] == c);
        assert(s[n as int].children.len() == 1);
        assert(rank[c as int] >= 0);
        n = c;
        proof {
            if nodes@[n as int].children@.len() > 0 {
                assert(s[n as int].children[0] == nodes@[n as int].children@[0]);
            }
        }
    }
    n
}

fn skip_at(nodes: &mut Vec<SteinerNode>, n: usize, Ghost(rank): Ghost<Seq<int>>)
    requires
        ranked(snodes(old(nodes)@), rank),
        n < old(nodes)@.len(),
    ensures
        snodes(final(nodes)@) == skip_below(snodes(old(nodes)@), rank, n as int),
        ranked(snodes(final(nodes)@), rank),
    decreases rank[n as int],
{
    assert(rank[n as int] >= 0);
    let ghost s0 = snodes(nodes@);
    let total: usize = nodes[n].children.len();
    assert(s0[n as int].children.len() == total);
    let mut ci: usize = 0;
    while ci < total
        invariant
            ranked(snodes(nodes@), rank),
            n < nodes@.len(),
            ci <= total,
            nodes@[n as int].children@.len() == total,
            snodes(nodes@) == runs_skipped(s0, rank, n as int, ci as int),
        decreases total - ci,
    {
        let ghost s = snodes(nodes@);
        let child: usize = nodes[n].children[ci];
        assert(s[n as int].children[ci as int] == child);
        let d: usize = if nodes[n].p.y == nodes[child].p.y { H } else { V };
        let end: usize = find_run_end(nodes, child, d, Ghost(rank));
        nodes[n].children.set(ci, end);
        proof {
            let t = snodes(nodes@);
            let want = SNode { children: s[n as int].children.update(ci as int, end as int), ..s[n as int] };
            assert(t[n as int].children =~= want.children);
            assert(t =~= s.update(n as int, want));
            assert forall|k: int| 0 <= k < want.children.len() implies 0 <= #[trigger] want.children[k] < s.len() && rank[want.children[k]] < rank[n as int] by {
                if k != ci {
                    assert(want.children[k] == s[n as int].children[k]);
                }
            }
            lemma_ranked_update(s, rank, n as int, want);
        }
        ci += 1;
    }
    let list = copy_places(&nodes[n].children);
    let ghost spec_list = snodes(nodes@)[n as int].children;
    let ghost goal = skip_each(snodes(nodes@), rank, n as int, spec_list, 0);
    proof {
        let s = snodes(nodes@);
        assert forall|k: int| 0 <= k < list@.len() implies #[trigger] spec_list[k] == list@[k] && 0 <= spec_list[k] < nodes@.len() && rank[spec_list[k]] < rank[n as int] by {
            assert(s[n as int].children[k] == list@[k]);
        }
    }
    let mut k: usize = 0;
    while k < list.len()
        invariant
            ranked(snodes(nodes@), rank),
            rank[n as int] >= 0,
            list@.len() == spec_list.len(),
            forall|k: int| 0 <= k < list@.len() ==> #[trigger] spec_list[k] == list@[k] && 0 <= spec_list[k] < nodes@.len() && rank[spec_list[k]] < rank[n as int],
            k <= list@.len(),
            skip_each(snodes(nodes@), rank, n as int, spec_list, k as int) == goal,
        decreases list@.len() - k,
    {
        let c: usize = list[k];
        assert(spec_list[k as int] == c);
        assert(rank[c as int] >= 0);
        skip_at(nodes, c, Ghost(rank));
        k += 1;
    }
}

/// Cleans up a tree, from the root down. First a child at its parent's place is folded in: its children are
/// appended and visited in the same pass, and its layers count only where the parent has none. Then each
/// child is replaced by the end of the straight run of nodes without layers below it.
pub fn clean_up(t: &mut SteinerTree)
    requires
        is_acyclic(snodes(old(t).nodes@)),
        old(t).root < old(t).nodes@.len(),
    ensures
        snodes(final(t).nodes@) == cleaned(snodes(old(t).nodes@), old(t).root as int),
        is_acyclic(snodes(final(t).nodes@)),
        final(t).nodes@.len() == old(t).nodes@.len(),
        final(t).root == old(t).root,
        final(t).root_branch == old(t).root_branch,
{
    let ghost rank = choose|rank: Seq<int>| #[trigger] ranked(snodes(t.nodes@), rank);
    let root: usize = t.root;
    fold_at(&mut t.nodes, root, Ghost(rank));
    skip_at(&mut t.nodes, root, Ghost(rank));
    assert(ranked(snodes(t.nodes@), rank));
}

/// Whether nodes lead to nodes of the list.
pub open spec fn kids_in_range(nodes: Seq<SNode>) -> bool {
    forall|n: int, k: int| 0 <= n < nodes.len() && 0 <= k < nodes[n].children.len() ==> 0 <= #[trigger] nodes[n].children[k] < nodes.len()
}

/// Whether a node that leads only to known nodes is known.
spec fn is_closed(nodes: Seq<SNode>, known: Seq<Option<usize>>) -> bool {
    forall|n: int|
        #![trigger known[n]]
        0 <= n < nodes.len() && (forall|k: int| 0 <= k < nodes[n].children.len() ==> known[#[trigger] nodes[n].children[k]] is Some) ==> known[n] is Some
}

proof fn lemma_closed(nodes: Seq<SNode>, known: Seq<Option<usize>>, rank: Seq<int>, n: int)
    requires
        ranked(nodes, rank),
        known.len() == nodes.len(),
        is_closed(nodes, known),
        0 <= n < nodes.len(),
    ensures
        known[n] is Some,
    decreases rank[n],
{
    assert(rank[n] >= 0);
    assert forall|k: int| 0 <= k < nodes[n].children.len() implies known[#[trigger] nodes[n].children[k]] is Some by {
        assert(rank[nodes[n].children[k]] >= 0);
        lemma_closed(nodes, known, rank, nodes[n].children[k]);
    }
}

/// Whether no node of a list is below itself.
#[verifier::rlimit(40)]
fn check_acyclic(nodes: &Vec<SteinerNode>) -> (r: bool)
    requires
        kids_in_range(snodes(nodes@)),
    ensures
        r == is_acyclic(snodes(nodes@)),
{
    let ghost s = snodes(nodes@);
    let total: usize = nodes.len();
    let mut known: Vec<Option<usize>> = Vec::new();
    let mut i: usize = 0;
    while i < total
        invariant
            i <= total,
            known@.len() == i,
            forall|k: int| 0 <= k < i ==> #[trigger] known@[k] is None,
        decreases total - i,
    {
        known.push(None);
        i += 1;
    }
    proof {
        lemma_none_counted(known@, total as int);
    }
    // Every round ranks all nodes that lead only to ranked ones, and gives those of one round the same
    // rank or a later one than the nodes before.
    let mut count: usize = 0;
    let mut moved_on = true;
    while moved_on && count < total
        invariant
            s == snodes(nodes@),
            kids_in_range(s),
            total == nodes@.len() == known@.len(),
            count <= total,
            forall|n: int| 0 <= n < total ==> ((#[trigger] known@[n]) matches Some(r) ==> r < count),
            forall|n: int, k: int|
                0 <= n < total && known@[n] is Some && 0 <= k < s[n].children.len() ==> known@[#[trigger] s[n].children[k]] is Some && known@[s[n].children[k]]->0 < known@[n]->0,
            count == known_count(known@, total as int),
            !moved_on ==> is_closed(s, known@),
        decreases total - count, if moved_on { 1int } else { 0int },
    {
        moved_on = false;
        let mut n: usize = 0;
        let ghost count0 = count;
        while n < total
            invariant
                s == snodes(nodes@),
                kids_in_range(s),
                total == nodes@.len() == known@.len(),
                n <= total,
                count0 <= count <= total,
                moved_on ==> count0 < count,
                forall|m: int| 0 <= m < total ==> ((#[trigger] known@[m]) matches Some(r) ==> r < count),
                forall|m: int, k: int|
                    0 <= m < total && known@[m] is Some && 0 <= k < s[m].children.len() ==> known@[#[trigger] s[m].children[k]] is Some && known@[s[m].children[k]]->0 < known@[m]->0,
                count == known_count(known@, total as int),
                !moved_on ==> forall|m: int|
                    #![trigger known@[m]]
                    0 <= m < n && (forall|k: int| 0 <= k < s[m].children.len() ==> known@[#[trigger] s[m].children[k]] is Some) ==> known@[m] is Some,
            decreases total - n,
        {
            if known[n].is_none() {
                let mut ready = true;
                let mut k: usize = 0;
                assert(s[n as int].children.len() == nodes@[n as int].children@.len());
                while k < nodes[n].children.len()
                    invariant
                        s == snodes(nodes@),
                        kids_in_range(s),
                        total == nodes@.len() == known@.len(),
                        n < total,
                        s[n as int].children.len() == nodes@[n as int].children@.len(),
                        k <= nodes@[n as int].children@.len(),
                        ready ==> forall|j: int| 0 <= j < k ==> known@[#[trigger] s[n as int].children[j]] is Some,
                        !ready ==> exists|j: int| 0 <= j < s[n as int].children.len() && known@[#[trigger] s[n as int].children[j]] is None,
                    decreases nodes@[n as int].children@.len() - k,
                {
                    let c: usize = nodes[n].children[k];
                    assert(s[n as int].children[k as int] == c);
                    if known[c].is_none() {
                        ready = false;
                    }
                    k += 1;
                }
                if ready {
                    let ghost known0 = known@;
                    proof {
                        lemma_count_bound(known@, total as int);
                        lemma_count_missing(known@, n as int, total as int);
                        lemma_count_set(known@, n as int, count, total as int);
                    }
                    known.set(n, Some(count));
                    count += 1;
                    moved_on = true;
                    proof {
                        assert forall|m: int, k: int| 0 <= m < total && known@[m] is Some && 0 <= k < s[m].children.len() implies known@[#[trigger] s[m].children[k]] is Some
                            && known@[s[m].children[k]]->0 < known@[m]->0 by {
                            let c = s[m].children[k];
                            if m == n as int {
                                assert(known0[c] is Some);
                                assert(c != n as int);
                                assert(known0[c]->0 < count - 1);
                            } else {
                                assert(known0[m] is Some);
                                assert(known0[c] is Some);
                            }
                        }
                    }
                }
            }
            n += 1;
        }
        proof {
            if !moved_on {
                assert(is_closed(s, known@));
            }
        }
    }
    if count == total {
        proof {
            lemma_count_full(known@, total as int);
            let rank = Seq::new(total as nat, |n: int| known@[n]->0 as int);
            assert forall|n: int, k: int| 0 <= n < s.len() && 0 <= k < s[n].children.len() implies 0 <= #[trigger] s[n].children[k] < s.len() && rank[s[n].children[k]] < rank[n] by {
                assert(known@[n] is Some);
            }
            assert(ranked(s, rank));
        }
        true
    } else {
        proof {
            if is_acyclic(s) {
                let rank = choose|rank: Seq<int>| #[trigger] ranked(s, rank);
                assert forall|n: int| 0 <= n < total implies #[trigger] known@[n] is Some by {
                    lemma_closed(s, known@, rank, n);
                }
                lemma_all_counted(known@, total as int);
            }
        }
        false
    }
}

/// The number of known nodes among the first `n`.
spec fn known_count(known: Seq<Option<usize>>, n: int) -> int
    decreases n,
{
    if n <= 0 { 0 } else { known_count(known, n - 1) + (if known[n - 1] is Some { 1int } else { 0int }) }
}

proof fn lemma_count_bound(known: Seq<Option<usize>>, n: int)
    requires
        0 <= n,
    ensures
        0 <= known_count(known, n) <= n,
    decreases n,
{
    if n > 0 {
        lemma_count_bound(known, n - 1);
    }
}

proof fn lemma_none_counted(known: Seq<Option<usize>>, n: int)
    requires
        0 <= n <= known.len(),
        forall|k: int| 0 <= k < n ==> #[trigger] known[k] is None,
    ensures
        known_count(known, n) == 0,
    decreases n,
{
    if n > 0 {
        lemma_none_counted(known, n - 1);
    }
}

proof fn lemma_count_missing(known: Seq<Option<usize>>, at: int, n: int)
    requires
        0 <= at < n,
        known[at] is None,
    ensures
        known_count(known, n) < n,
    decreases n,
{
    lemma_count_bound(known, n - 1);
    if at < n - 1 {
        lemma_count_missing(known, at, n - 1);
    }
}

proof fn lemma_count_set(known: Seq<Option<usize>>, at: int, v: usize, n: int)
    requires
        0 <= at < known.len(),
        0 <= n <= known.len(),
        known[at] is None,
    ensures
        known_count(known.update(at, Some(v)), n) == known_count(known, n) + (if at < n { 1int } else { 0int }),
    decreases n,
{
    if n > 0 {
        lemma_count_set(known, at, v, n - 1);
    }
}

proof fn lemma_count_full(known: Seq<Option<usize>>, n: int)
    requires
        0 <= n <= known.len(),
        known_count(known, n) == n,
    ensures
        forall|k: int| 0 <= k < n ==> #[trigger] known[k] is Some,
    decreases n,
{
    if n > 0 {
        lemma_count_bound(known, n - 1);
        lemma_count_full(known, n - 1);
    }
}

proof fn lemma_all_counted(known: Seq<Option<usize>>, n: int)
    requires
        0 <= n <= known.len(),
        forall|k: int| 0 <= k < n ==> #[trigger] known[k] is Some,
    ensures
        known_count(known, n) == n,
    decreases n,
{
    if n > 0 {
        lemma_all_counted(known, n - 1);
    }
}

/// Whether a node has a child at its own place.
pub open spec fn has_twin(nodes: Seq<SNode>, n: int) -> bool {
    exists|k: int| 0 <= k < nodes[n].children.len() && nodes[#[trigger] nodes[n].children[k]].p == nodes[n].p
}

/// Whether a node of a walk has a child at its own place.
pub open spec fn any_twin(nodes: Seq<SNode>, walk: Seq<int>) -> bool {
    exists|i: int| 0 <= i < walk.len() && has_twin(nodes, #[trigger] walk[i])
}

/// The nodes of a tree from its root, in walking order.
pub open spec fn walk_of(nodes: Seq<SNode>, root: int) -> Seq<int> {
    walk_below(nodes, choose|rank: Seq<int>| #[trigger] ranked(nodes, rank), root)
}

/// The tree of the paths, or why there is none: the paths merged, then cleaned up.
pub open spec fn tree_of_paths<C>(g: SparseGraph<C>, arena: Seq<Solution<C>>, found: Seq<usize>) -> Result<(Seq<SNode>, int), MazeError> {
    if g.pseudo_pins@.len() == 1 {
        Ok((seq![SNode { p: g.pseudo_pins@[0].p, fixed: g.pseudo_pins@[0].layers, children: Seq::empty() }], 0))
    } else {
        match all_walked(g, arena, found, found.len() as int) {
            Ok(t) => match t.root {
                Some(root) => if !is_acyclic(t.nodes) {
                    Err(MazeError::NotATree)
                } else if any_twin(cleaned(t.nodes, root), walk_of(cleaned(t.nodes, root), root)) {
                    Err(MazeError::DuplicatedNodes)
                } else {
                    Ok((cleaned(t.nodes, root), root))
                },
                None => Err(MazeError::NoRoot),
            },
            Err(e) => Err(e),
        }
    }
}

pub open spec fn created_ints(v: Seq<Option<usize>>) -> Seq<Option<int>> {
    v.map_values(|o: Option<usize>| as_link(o))
}

struct Grower {
    nodes: Vec<SteinerNode>,
    created: Vec<Option<usize>>,
    root: Option<usize>,
}

impl Grower {
    spec fn growing(&self) -> Growing {
        Growing { nodes: snodes(self.nodes@), created: created_ints(self.created@), root: as_link(self.root) }
    }

    spec fn ok(&self, vertices: int) -> bool {
        &&& self.created@.len() == vertices
        &&& kids_in_range(snodes(self.nodes@))
        &&& forall|v: int| 0 <= v < vertices ==> ((#[trigger] self.created@[v]) matches Some(n) ==> n < self.nodes@.len())
        &&& self.root matches Some(r) ==> r < self.nodes@.len()
    }

    fn walk<C>(&mut self, g: &SparseGraph<C>, arena: &Arena<C>, start: usize) -> (r: Option<MazeError>)
        requires
            graph_ok(*g),
            old(self).ok(g.vertices@.len() as int),
            arena_ok(arena.v@, g.vertices@.len() as int),
            start < arena.v@.len(),
        ensures
            match r {
                None => walked(*g, arena.v@, old(self).growing(), start as int, None) == Ok::<Growing, MazeError>(final(self).growing()) && final(self).ok(g.vertices@.len() as int),
                Some(e) => walked(*g, arena.v@, old(self).growing(), start as int, None) == Err::<Growing, MazeError>(e),
            },
    {
        let ghost goal = walked(*g, arena.v@, self.growing(), start as int, None);
        let mut id: usize = start;
        let mut last: Option<usize> = None;
        loop
            invariant
                graph_ok(*g),
                self.ok(g.vertices@.len() as int),
                arena_ok(arena.v@, g.vertices@.len() as int),
                id < arena.v@.len(),
                last matches Some(l) ==> l < self.nodes@.len(),
                goal == walked(*g, arena.v@, old(self).growing(), start as int, None),
                walked(*g, arena.v@, self.growing(), id as int, as_link(last)) == goal,
            decreases id,
        {
            let ghost t0 = self.growing();
            let ghost nodes0 = snodes(self.nodes@);
            assert(arena.v@[id as int].vertex < g.vertices@.len());
            let v: usize = arena.v[id].vertex;
            let prev = arena.v[id].prev;
            assert(t0.created[v as int] == as_link(self.created@[v as int]));
            match self.created[v] {
                Some(e) => {
                    assert(self.created@[v as int] is Some);
                    match last {
                        Some(l) => {
                            self.nodes[e].children.push(l);
                            proof {
                                let s = snodes(self.nodes@);
                                let want = with_kid(nodes0[e as int], Some(l as int));
                                assert(s[e as int].children =~= want.children);
                                assert(s =~= nodes0.update(e as int, want));
                                assert forall|n: int, k: int| 0 <= n < s.len() && 0 <= k < s[n].children.len() implies 0 <= #[trigger] s[n].children[k] < s.len() by {
                                    if n == e as int && k == nodes0[n].children.len() {
                                    } else {
                                        assert(nodes0[n].children[k] == s[n].children[k]);
                                    }
                                }
                                assert(self.growing() =~= Growing { nodes: nodes0.update(e as int, want), ..t0 });
                            }
                        },
                        None => {
                            assert(nodes0.update(e as int, with_kid(nodes0[e as int], None)) =~= nodes0);
                            assert(self.growing() =~= Growing { nodes: nodes0.update(e as int, with_kid(nodes0[e as int], None)), ..t0 });
                        },
                    }
                    return None;
                },
                None => {},
            }
            let me: usize = self.nodes.len();
            let is_end = last.is_none() || prev.is_none();
            let fixed = if is_end {
                match g.vertex_pin[v] {
                    Some(k) => {
                        assert(g.vertex_pin@[v as int] is Some);
                        g.pseudo_pins[k].layers
                    },
                    None => {
                        return Some(MazeError::NoPinAtEnd);
                    },
                }
            } else {
                Interval { low: i32::MAX, high: i32::MIN }
            };
            let mut children: Vec<usize> = Vec::new();
            match last {
                Some(l) => {
                    children.push(l);
                },
                None => {},
            }
            let p = Point { x: g.vertices[v].x, y: g.vertices[v].y };
            let ghost want = with_kid(SNode { p, fixed, children: Seq::empty() }, as_link(last));
            assert(children@.map_values(|c: usize| c as int) =~= want.children);
            self.nodes.push(SteinerNode { p, fixed, children });
            self.created.set(v, Some(me));
            if prev.is_none() {
                self.root = Some(me);
            }
            proof {
                let s = snodes(self.nodes@);
                assert(s =~= nodes0.push(want)) by {
                    assert(s[me as int] =~= want);
                }
                let want_created = t0.created.update(v as int, Some(me as int));
                assert(created_ints(self.created@) =~= want_created);
                assert forall|n: int, k: int| 0 <= n < s.len() && 0 <= k < s[n].children.len() implies 0 <= #[trigger] s[n].children[k] < s.len() by {
                    if n < me {
                        assert(nodes0[n].children[k] == s[n].children[k]);
                    } else {
                        assert(want.children[k] == s[n].children[k]);
                    }
                }
                assert(self.growing() =~= Growing {
                    nodes: nodes0.push(want),
                    created: want_created,
                    root: if prev is None { Some(me as int) } else { t0.root },
                });
            }
            match prev {
                Some(q) => {
                    assert(q < id);
                    last = Some(me);
                    id = q;
                },
                None => {
                    return None;
                },
            }
        }
    }
}

/// The Steiner tree of the paths found, rooted at the first pin: each path is walked back from its pin to
/// the first vertex already in the tree, and the whole is cleaned up.
pub fn steiner_tree<C>(g: &SparseGraph<C>, arena: &Arena<C>, found: &Vec<usize>) -> (r: Result<SteinerTree, MazeError>)
    requires
        graph_ok(*g),
        arena_ok(arena.v@, g.vertices@.len() as int),
        forall|i: int| 0 <= i < found@.len() ==> #[trigger] found@[i] < arena.v@.len(),
    ensures
        match r {
            Ok(t) => {
                &&& tree_of_paths(*g, arena.v@, found@) == Ok::<(Seq<SNode>, int), MazeError>((snodes(t.nodes@), t.root as int))
                &&& is_acyclic(snodes(t.nodes@))
                &&& t.root < t.nodes@.len()
            },
            Err(e) => tree_of_paths(*g, arena.v@, found@) == Err::<(Seq<SNode>, int), MazeError>(e),
        },
{
    if g.pseudo_pins.len() == 1 {
        let mut nodes: Vec<SteinerNode> = Vec::new();
        nodes.push(SteinerNode { p: g.pseudo_pins[0].p, fixed: g.pseudo_pins[0].layers, children: Vec::new() });
        proof {
            let s = snodes(nodes@);
            let want = SNode { p: g.pseudo_pins@[0].p, fixed: g.pseudo_pins@[0].layers, children: Seq::empty() };
            assert(s[0] =~= want);
            assert(s =~= seq![want]);
            assert(ranked(s, seq![0int]));
        }
        return Ok(SteinerTree { nodes, root: 0, root_branch: 0 });
    }
    let mut grower = Grower { nodes: Vec::new(), created: crate::vecs::filled(None, g.vertices.len()), root: None };
    proof {
        assert(grower.growing() =~= Growing { nodes: Seq::empty(), created: Seq::new(g.vertices@.len(), |v: int| None::<int>), root: None });
    }
    let mut k: usize = 0;
    while k < found.len()
        invariant
            graph_ok(*g),
            g.pseudo_pins@.len() != 1,
            arena_ok(arena.v@, g.vertices@.len() as int),
            forall|i: int| 0 <= i < found@.len() ==> #[trigger] found@[i] < arena.v@.len(),
            k <= found@.len(),
            grower.ok(g.vertices@.len() as int),
            all_walked(*g, arena.v@, found@, k as int) == Ok::<Growing, MazeError>(grower.growing()),
        decreases found@.len() - k,
    {
        assert(found@[k as int] < arena.v@.len());
        match grower.walk(g, arena, found[k]) {
            Some(e) => {
                proof {
                    lemma_walk_stops(*g, arena.v@, found@, k + 1, found@.len() as int);
                }
                return Err(e);
            },
            None => {},
        }
        k += 1;
    }
    let root: usize = match grower.root {
        Some(r) => r,
        None => {
            return Err(MazeError::NoRoot);
        },
    };
    if !check_acyclic(&grower.nodes) {
        return Err(MazeError::NotATree);
    }
    let mut t = SteinerTree { nodes: grower.nodes, root, root_branch: 0 };
    clean_up(&mut t);
    let walk = t.preorder();
    let ghost s = snodes(t.nodes@);
    let ghost w = t.walk();
    let mut i: usize = 0;
    assert(w.len() == walk@.len()) by {
        assert(walk@.map_values(|n: usize| n as int).len() == walk@.len());
    }
    while i < walk.len()
        invariant
            s == snodes(t.nodes@),
            is_acyclic(s),
            w == walk_of(s, root as int),
            walk@.map_values(|n: usize| n as int) == w,
            w.len() == walk@.len(),
            forall|i: int| 0 <= i < walk@.len() ==> #[trigger] walk@[i] < t.nodes@.len(),
            i <= walk@.len(),
            forall|j: int| 0 <= j < i ==> !has_twin(s, #[trigger] w[j]),
            tree_of_paths(*g, arena.v@, found@) == (if any_twin(s, w) { Err::<(Seq<SNode>, int), MazeError>(MazeError::DuplicatedNodes) } else { Ok((s, root as int)) }),
        decreases walk@.len() - i,
    {
        let n: usize = walk[i];
        assert(w[i as int] == n) by {
            assert(walk@.map_values(|n: usize| n as int)[i as int] == n);
        }
        assert(s[n as int].children.len() == t.nodes@[n as int].children@.len());
        let mut k: usize = 0;
        while k < t.nodes[n].children.len()
            invariant
                s == snodes(t.nodes@),
                is_acyclic(s),
                n < t.nodes@.len(),
                i < w.len(),
                w[i as int] == n,
                s[n as int].children.len() == t.nodes@[n as int].children@.len(),
                k <= t.nodes@[n as int].children@.len(),
                forall|j: int| 0 <= j < k ==> s[#[trigger] s[n as int].children[j]].p != s[n as int].p,
                tree_of_paths(*g, arena.v@, found@) == (if any_twin(s, w) { Err::<(Seq<SNode>, int), MazeError>(MazeError::DuplicatedNodes) } else { Ok((s, root as int)) }),
            decreases t.nodes@[n as int].children@.len() - k,
        {
            let c: usize = t.nodes[n].children[k];
            assert(s[n as int].children[k as int] == c);
            proof {
                let rank = choose|rank: Seq<int>| #[trigger] ranked(s, rank);
                assert(ranked(s, rank));
            }
            if t.nodes[c].p == t.nodes[n].p {
                assert(has_twin(s, n as int));
                assert(has_twin(s, w[i as int]));
                return Err(MazeError::DuplicatedNodes);
            }
            k += 1;
        }
        i += 1;
    }
    Ok(t)
}

proof fn lemma_walk_stops<C>(g: SparseGraph<C>, arena: Seq<Solution<C>>, found: Seq<usize>, m: int, n: int)
    requires
        0 <= m <= n,
        all_walked(g, arena, found, m) is Err,
    ensures
        all_walked(g, arena, found, n) == all_walked(g, arena, found, m),
    decreases n - m,
{
    if m < n {
        lemma_walk_stops(g, arena, found, m, n - 1);
    }
}

/// A thinned graph is one that can be searched: its links and pins stay within it.
pub proof fn a_thinned_graph_can_be_searched<C: Cost>(s: Source<C>, grid: SparseGrid, x_size: int, y_size: int, g: SparseGraph<C>)
    requires
        is_sparse(s, grid, x_size, y_size, g),
        g.xs@.len() > 0,
        g.ys@.len() > 0,
    ensures
        graph_ok(g),
{
    let (nx, ny) = (g.xs@.len() as int, g.ys@.len() as int);
    let n = g.vertices@.len();
    assert forall|u: int|
        #![trigger g.edges@[u]]
        0 <= u < n implies (g.edges@[u].next matches Some(v) ==> v < n) && (g.edges@[u].prev matches Some(v) ==> v < n) && (g.edges@[u].across matches Some(v) ==> v < n) by {
        assert(link_places(g.edges@[u]) == links_at(nx, ny, u));
        lemma_decode(nx, ny, u);
        let (yi, xi) = (row_of(nx, ny, u), column_of(nx, ny, u));
        if yi + 1 < ny {
            assert(yi * nx + nx + xi < nx * ny) by (nonlinear_arith)
                requires
                    yi + 1 < ny,
                    0 <= xi < nx,
            ;
        }
        if xi + 1 < nx {
            assert(yi * nx + xi + 1 < nx * ny) by (nonlinear_arith)
                requires
                    0 <= yi < ny,
                    xi + 1 < nx,
                    0 <= xi,
            ;
        }
    }
    assert forall|u: int| 0 <= u < n implies ((#[trigger] g.vertex_pin@[u]) matches Some(k) ==> k < g.pseudo_pins@.len()) by {
        assert(as_link(g.vertex_pin@[u]) == pin_at(s.pins, g.xs@, g.ys@, u));
        lemma_place_range(s.pins, point_at(g.xs@, g.ys@, column_of(nx, ny, u), row_of(nx, ny, u)), 0);
    }
}

/// What a search for a net gives: the graph, the states, those that reached a pin, and the tree.
#[derive(Debug)]
pub struct MazeRoute<C> {
    pub graph: SparseGraph<C>,
    pub arena: Arena<C>,
    pub found: Vec<usize>,
    pub tree: SteinerTree,
}

/// Searches a route for a net over its cells: the thinned graph, the search, and the tree of the paths.
pub fn maze_tree<C: Cost>(selected: &AccessPointMap, view: &CostView<C>, grid: &SparseGrid, x_size: usize, y_size: usize, unit_via_cost: C, zero: C, max: C) -> (r: Result<
    MazeRoute<C>,
    MazeError,
>)
    requires
        source_fits(Source { pins: selected@, view: *view, via_cost: unit_via_cost, zero }, *grid, x_size as int, y_size as int),
        selected@.len() > 0,
    ensures
        match r {
            Ok(m) => {
                &&& is_sparse(Source { pins: selected@, view: *view, via_cost: unit_via_cost, zero }, *grid, x_size as int, y_size as int, m.graph)
                &&& search_end(m.graph, zero, max) == (JoinEnd::Done { arena: m.arena.v@, found: m.found@ })
                &&& tree_of_paths(m.graph, m.arena.v@, m.found@) == Ok::<(Seq<SNode>, int), MazeError>((snodes(m.tree.nodes@), m.tree.root as int))
                &&& is_acyclic(snodes(m.tree.nodes@))
                &&& m.tree.root < m.tree.nodes@.len()
            },
            Err(e) => exists|g: SparseGraph<C>| #[trigger]
                is_sparse(Source { pins: selected@, view: *view, via_cost: unit_via_cost, zero }, *grid, x_size as int, y_size as int, g) && is_maze_refused(
                    g,
                    zero,
                    max,
                    e,
                ),
        },
{
    let ghost s = Source { pins: selected@, view: *view, via_cost: unit_via_cost, zero };
    let graph = SparseGraph::init(selected, view, grid, x_size, y_size, unit_via_cost, zero);
    proof {
        let (px, py) = (pin_x(s.pins), pin_y(s.pins));
        assert(s.pins[0].p.x == s.pins[0].p.x);
        assert(px(s.pins[0].p.x) && py(s.pins[0].p.y));
        assert(graph.xs@.contains(s.pins[0].p.x) && graph.ys@.contains(s.pins[0].p.y));
        a_thinned_graph_can_be_searched(s, *grid, x_size as int, y_size as int, graph);
    }
    let (arena, found) = match run(&graph, zero, max) {
        Ok((a, f)) => (a, f),
        Err(e) => {
            assert(is_maze_refused(graph, zero, max, e));
            return Err(e);
        },
    };
    let tree = match steiner_tree(&graph, &arena, &found) {
        Ok(t) => t,
        Err(e) => {
            assert(is_maze_refused(graph, zero, max, e));
            return Err(e);
        },
    };
    Ok(MazeRoute { graph, arena, found, tree })
}

/// Whether the search over a graph, or the tree of its paths, fails.
pub open spec fn is_maze_refused<C: Cost>(g: SparseGraph<C>, zero: C, max: C, e: MazeError) -> bool {
    match search_end(g, zero, max) {
        JoinEnd::Failed(f) => f == e,
        JoinEnd::Done { arena, found } => tree_of_paths(g, arena, found) == Err::<(Seq<SNode>, int), MazeError>(e),
    }
}

// ---- what the thinned graph and the tree of the paths are for ----

proof fn lemma_second_plane(nx: int, ny: int, w: int)
    requires
        nx > 0,
        ny > 0,
        0 <= w < nx * ny,
    ensures
        plane_of(nx, ny, nx * ny + w) == 1,
        row_of(nx, ny, nx * ny + w) == row_of(nx, ny, w),
        column_of(nx, ny, nx * ny + w) == column_of(nx, ny, w),
{
    let a = nx * ny;
    let v = a + w;
    assert(v / a == 1 && v % a == w) by (nonlinear_arith)
        requires
            0 <= w < a,
            v == a + w,
    ;
    assert(w % a == w) by (nonlinear_arith)
        requires
            0 <= w < a,
    ;
}

/// Links lead both ways, and cost the same both ways: from a vertex of the first plane to its neighbours
/// on the same row, from one of the second to those on the same column, and across to the vertex at the
/// same place of the other plane.
pub proof fn links_lead_both_ways<C: Cost>(s: Source<C>, xs: Seq<i32>, ys: Seq<i32>, u: int)
    requires
        xs.len() > 0,
        ys.len() > 0,
        0 <= u < 2 * (xs.len() * ys.len()),
    ensures
        ({
            let (nx, ny) = (xs.len() as int, ys.len() as int);
            let (plane, row, column) = (plane_of(nx, ny, u), row_of(nx, ny, u), column_of(nx, ny, u));
            let l = links_at(nx, ny, u);
            &&& match l.next {
                Some(v) => {
                    &&& 0 <= v < 2 * (nx * ny)
                    &&& plane_of(nx, ny, v) == plane
                    &&& plane == 0 ==> row_of(nx, ny, v) == row && column_of(nx, ny, v) == column + 1
                    &&& plane == 1 ==> row_of(nx, ny, v) == row + 1 && column_of(nx, ny, v) == column
                    &&& links_at(nx, ny, v).prev == Some(u)
                    &&& costs_at(s, xs, ys, v).prev == costs_at(s, xs, ys, u).next
                },
                None => if plane == 0 { column == nx - 1 } else { row == ny - 1 },
            }
            &&& match l.prev {
                Some(v) => {
                    &&& 0 <= v < 2 * (nx * ny)
                    &&& plane_of(nx, ny, v) == plane
                    &&& plane == 0 ==> row_of(nx, ny, v) == row && column_of(nx, ny, v) == column - 1
                    &&& plane == 1 ==> row_of(nx, ny, v) == row - 1 && column_of(nx, ny, v) == column
                    &&& links_at(nx, ny, v).next == Some(u)
                    &&& costs_at(s, xs, ys, v).next == costs_at(s, xs, ys, u).prev
                },
                None => if plane == 0 { column == 0 } else { row == 0 },
            }
            &&& match l.across {
                Some(v) => {
                    &&& 0 <= v < 2 * (nx * ny)
                    &&& plane_of(nx, ny, v) == 1 - plane
                    &&& row_of(nx, ny, v) == row
                    &&& column_of(nx, ny, v) == column
                    &&& links_at(nx, ny, v).across == Some(u)
                    &&& costs_at(s, xs, ys, v).across == costs_at(s, xs, ys, u).across
                },
                None => false,
            }
        }),
{
    let (nx, ny) = (xs.len() as int, ys.len() as int);
    let (plane, row, column) = (plane_of(nx, ny, u), row_of(nx, ny, u), column_of(nx, ny, u));
    let a = nx * ny;
    lemma_decode(nx, ny, u);
    let w = row * nx + column;
    lemma_encode(nx, ny, column, row);
    if plane == 0 {
        assert(u == w);
        lemma_second_plane(nx, ny, w);
        if column + 1 < nx {
            lemma_encode(nx, ny, column + 1, row);
        }
        if column > 0 {
            lemma_encode(nx, ny, column - 1, row);
        }
    } else {
        assert(u == a + w);
        if row + 1 < ny {
            assert((row + 1) * nx == row * nx + nx) by (nonlinear_arith);
            lemma_encode(nx, ny, column, row + 1);
            lemma_second_plane(nx, ny, (row + 1) * nx + column);
        }
        if row > 0 {
            assert((row - 1) * nx == row * nx - nx) by (nonlinear_arith);
            lemma_encode(nx, ny, column, row - 1);
            lemma_second_plane(nx, ny, (row - 1) * nx + column);
        }
    }
}

/// Whether the nodes of a tree in the making stand at their vertices.
pub open spec fn stands_at_vertices<C>(g: SparseGraph<C>, t: Growing) -> bool {
    &&& t.created.len() == g.vertices@.len()
    &&& forall|v: int| 0 <= v < t.created.len() ==> match #[trigger] t.created[v] {
        Some(e) => 0 <= e < t.nodes.len() && t.nodes[e].p == vertex_point(g, v),
        None => true,
    }
}

/// Whether a node is the child of another.
pub open spec fn hangs(nodes: Seq<SNode>, i: int) -> bool {
    exists|n: int| 0 <= n < nodes.len() && (#[trigger] nodes[n]).children.contains(i)
}

/// Whether a node is that of a vertex where a search started.
pub open spec fn is_start<C>(arena: Seq<Solution<C>>, t: Growing, i: int) -> bool {
    exists|id: int| 0 <= id < arena.len() && (#[trigger] arena[id]).prev is None && t.created[arena[id].vertex as int] == Some(i)
}

spec fn node_kept(a: SNode, b: SNode) -> bool {
    a.p == b.p && a.fixed == b.fixed && a.children.is_prefix_of(b.children)
}

spec fn grew<C>(g: SparseGraph<C>, t: Growing, u: Growing) -> bool {
    &&& t.nodes.len() <= u.nodes.len()
    &&& forall|i: int| 0 <= i < t.nodes.len() ==> node_kept(t.nodes[i], #[trigger] u.nodes[i])
    &&& t.created.len() == u.created.len()
    &&& forall|v: int| 0 <= v < t.created.len() && t.created[v] is Some ==> #[trigger] u.created[v] == t.created[v]
}

proof fn lemma_hangs_on<C>(g: SparseGraph<C>, arena: Seq<Solution<C>>, t: Growing, u: Growing, i: int)
    requires
        grew(g, t, u),
        stands_at_vertices(g, t),
        forall|id: int| 0 <= id < arena.len() ==> (#[trigger] arena[id]).vertex < g.vertices@.len(),
        hangs(t.nodes, i) || is_start(arena, t, i),
    ensures
        hangs(u.nodes, i) || is_start(arena, u, i),
{
    if hangs(t.nodes, i) {
        let n = choose|n: int| 0 <= n < t.nodes.len() && (#[trigger] t.nodes[n]).children.contains(i);
        assert(node_kept(t.nodes[n], u.nodes[n]));
        let k = choose|k: int| 0 <= k < t.nodes[n].children.len() && t.nodes[n].children[k] == i;
        assert(u.nodes[n].children[k] == i);
        assert(u.nodes[n].children.contains(i));
    } else {
        let id = choose|id: int| 0 <= id < arena.len() && (#[trigger] arena[id]).prev is None && t.created[arena[id].vertex as int] == Some(i);
        let v = arena[id].vertex as int;
        assert(u.created[v] == t.created[v]);
        assert(arena[id].prev is None);
    }
}

proof fn lemma_walked<C>(g: SparseGraph<C>, arena: Seq<Solution<C>>, t: Growing, id: int, last: Option<int>)
    requires
        stands_at_vertices(g, t),
        0 <= id < arena.len(),
        forall|k: int| 0 <= k < arena.len() ==> (#[trigger] arena[k]).vertex < g.vertices@.len() && (arena[k].prev matches Some(p) ==> p < k),
        last matches Some(l) ==> 0 <= l < t.nodes.len(),
    ensures
        walked(g, arena, t, id, last) matches Ok(u) ==> {
            &&& stands_at_vertices(g, u)
            &&& grew(g, t, u)
            &&& u.created[arena[id].vertex as int] is Some
            &&& last matches Some(l) ==> u.nodes[u.created[arena[id].vertex as int]->Some_0].children.contains(l)
            &&& forall|i: int| t.nodes.len() <= i < u.nodes.len() ==> #[trigger] hangs(u.nodes, i) || is_start(arena, u, i)
        },
    decreases id,
{
    let s = arena[id];
    let v = s.vertex as int;
    if let Ok(u) = walked(g, arena, t, id, last) {
        match t.created[v] {
            Some(e) => {
                let n = with_kid(t.nodes[e], last);
                assert(node_kept(t.nodes[e], n)) by {
                    assert(t.nodes[e].children.is_prefix_of(n.children));
                }
                assert forall|i: int| 0 <= i < t.nodes.len() implies node_kept(t.nodes[i], #[trigger] u.nodes[i]) by {
                    assert(t.nodes[i].children.is_prefix_of(t.nodes[i].children));
                }
                if let Some(l) = last {
                    assert(n.children[t.nodes[e].children.len() as int] == l);
                }
                assert forall|w: int| 0 <= w < u.created.len() implies match #[trigger] u.created[w] {
                    Some(e) => 0 <= e < u.nodes.len() && u.nodes[e].p == vertex_point(g, w),
                    None => true,
                } by {
                    assert(u.created[w] == t.created[w]);
                }
            },
            None => {
                let me = t.nodes.len() as int;
                let is_end = last is None || s.prev is None;
                let fixed = if is_end { g.pseudo_pins@[g.vertex_pin@[v]->0 as int].layers } else { no_layers() };
                let n = with_kid(SNode { p: vertex_point(g, v), fixed, children: Seq::empty() }, last);
                let w = Growing { nodes: t.nodes.push(n), created: t.created.update(v, Some(me)), root: if s.prev is None { Some(me) } else { t.root } };
                assert forall|i: int| 0 <= i < t.nodes.len() implies node_kept(t.nodes[i], #[trigger] w.nodes[i]) by {
                    assert(t.nodes[i].children.is_prefix_of(t.nodes[i].children));
                }
                assert(stands_at_vertices(g, w));
                if let Some(l) = last {
                    assert(n.children[0] == l);
                }
                match s.prev {
                    Some(p) => {
                        lemma_walked(g, arena, w, p as int, Some(me));
                        assert forall|i: int| 0 <= i < t.nodes.len() implies node_kept(t.nodes[i], #[trigger] u.nodes[i]) by {
                            assert(node_kept(w.nodes[i], u.nodes[i]));
                        }
                        assert(u.created[v] == w.created[v]);
                        assert(node_kept(w.nodes[me], u.nodes[me]));
                        if let Some(l) = last {
                            assert(u.nodes[me].children[0] == l);
                            assert(u.nodes[me].children.contains(l));
                        }
                        assert forall|i: int| t.nodes.len() <= i < u.nodes.len() implies #[trigger] hangs(u.nodes, i) || is_start(arena, u, i) by {
                            if i == me {
                                let e = u.created[arena[p as int].vertex as int]->Some_0;
                                assert(0 <= e < u.nodes.len());
                                assert(u.nodes[e].children.contains(me));
                            }
                        }
                        assert forall|x: int| 0 <= x < t.created.len() && t.created[x] is Some implies #[trigger] u.created[x] == t.created[x] by {
                            assert(w.created[x] == t.created[x]);
                        }
                    },
                    None => {
                        assert(arena[id].prev is None && u.created[arena[id].vertex as int] == Some(me));
                        assert(is_start(arena, u, me));
                    },
                }
            },
        }
    }
}

/// The tree of the paths hangs together and holds every path's end: each has a node, every node stands
/// at the place of its vertex, and every node hangs on another or is where a search started.
pub proof fn the_tree_of_the_paths_holds_every_end<C>(g: SparseGraph<C>, arena: Seq<Solution<C>>, found: Seq<usize>, n: int, j: int, i: int)
    requires
        0 <= n <= found.len(),
        forall|k: int| 0 <= k < arena.len() ==> (#[trigger] arena[k]).vertex < g.vertices@.len() && (arena[k].prev matches Some(p) ==> p < k),
        forall|k: int| 0 <= k < found.len() ==> (#[trigger] found[k]) < arena.len(),
    ensures
        all_walked(g, arena, found, n) matches Ok(t) ==> {
            &&& stands_at_vertices(g, t)
            &&& 0 <= j < n ==> t.created[arena[found[j] as int].vertex as int] is Some
            &&& 0 <= i < t.nodes.len() ==> hangs(t.nodes, i) || is_start(arena, t, i)
        },
    decreases n,
{
    if n > 0 {
        the_tree_of_the_paths_holds_every_end(g, arena, found, n - 1, j, i);
        if let Ok(t) = all_walked(g, arena, found, n) {
            let b = all_walked(g, arena, found, n - 1)->Ok_0;
            let id = found[n - 1] as int;
            lemma_walked(g, arena, b, id, None);
            if 0 <= j < n - 1 {
                let v = arena[found[j] as int].vertex as int;
                assert(t.created[v] == b.created[v]);
            }
            if 0 <= i < b.nodes.len() {
                lemma_hangs_on(g, arena, b, t, i);
            }
        }
    }
}

/// A run ends on its own line, at a node that bears pins, turns off or branches, and every node that is
/// skipped on the way bears no pins.
pub proof fn a_run_ends_on_its_line(nodes: Seq<SNode>, rank: Seq<int>, n: int, d: int)
    requires
        ranked(nodes, rank),
        0 <= n < nodes.len(),
    ensures
        0 <= run_end(nodes, rank, n, d) < nodes.len(),
        coord(nodes[run_end(nodes, rank, n, d)].p, 1 - d) == coord(nodes[n].p, 1 - d),
        !is_stop(nodes, run_end(nodes, rank, n, d), d),
        nodes[n].fixed.valid() || nodes[n].children.len() != 1 ==> run_end(nodes, rank, n, d) == n,
    decreases rank[n],
{
    if is_stop(nodes, n, d) {
        let c = nodes[n].children[0];
        assert(rank[c] < rank[n] && 0 <= c < nodes.len());
        assert(rank[c] >= 0);
        a_run_ends_on_its_line(nodes, rank, c, d);
    }
}

/// Skipping runs moves no node and takes no layers from it; each child gives way to the end of its run.
pub proof fn skipping_a_run_keeps_its_line(nodes: Seq<SNode>, rank: Seq<int>, n: int, k: int, i: int, m: int)
    requires
        ranked(nodes, rank),
        0 <= n < nodes.len(),
        0 <= k <= nodes[n].children.len(),
        0 <= i < nodes[n].children.len(),
        0 <= m < nodes.len(),
    ensures
        ({
            let r = runs_skipped(nodes, rank, n, k);
            let (a, b) = (nodes[n].children[i], r[n].children[i]);
            &&& r.len() == nodes.len()
            &&& r[m].p == nodes[m].p
            &&& r[m].fixed == nodes[m].fixed
            &&& m != n ==> r[m] == nodes[m]
            &&& r[n].children.len() == nodes[n].children.len()
            &&& i >= k ==> b == a
            &&& i < k ==> {
                &&& 0 <= b < nodes.len()
                &&& nodes[a].p.y == nodes[n].p.y ==> nodes[b].p.y == nodes[n].p.y
                &&& nodes[a].p.y != nodes[n].p.y && nodes[a].p.x == nodes[n].p.x ==> nodes[b].p.x == nodes[n].p.x
                &&& nodes[a].fixed.valid() ==> b == a
            }
        }),
    decreases k,
{
    if k > 0 {
        skipping_a_run_keeps_its_line(nodes, rank, n, k - 1, i, m);
        skipping_a_run_keeps_its_line(nodes, rank, n, k - 1, k - 1, n);
        let a = runs_skipped(nodes, rank, n, k - 1);
        let child = nodes[n].children[k - 1];
        assert(a[n].children[k - 1] == child);
        assert(0 <= child < nodes.len() && rank[child] < rank[n]);
        skipping_a_run_keeps_its_line(nodes, rank, n, k - 1, k - 1, child);
        let d = if a[n].p.y == a[child].p.y { 0int } else { 1int };
        assert forall|j: int| 0 <= j < nodes.len() && j != n implies #[trigger] a[j] == nodes[j] by {
            skipping_a_run_keeps_its_line(nodes, rank, n, k - 1, k - 1, j);
        }
        lemma_run_same(nodes, a, rank, n, child, d);
        a_run_ends_on_its_line(nodes, rank, child, d);
    }
}

proof fn lemma_run_same(nodes: Seq<SNode>, a: Seq<SNode>, rank: Seq<int>, n: int, c: int, d: int)
    requires
        ranked(nodes, rank),
        0 <= n < nodes.len(),
        0 <= c < nodes.len(),
        rank[c] < rank[n],
        forall|j: int| 0 <= j < nodes.len() && j != n ==> #[trigger] a[j] == nodes[j],
    ensures
        run_end(a, rank, c, d) == run_end(nodes, rank, c, d),
    decreases rank[c],
{
    assert(a[c] == nodes[c]);
    if nodes[c].children.len() == 1 {
        let e = nodes[c].children[0];
        assert(0 <= e < nodes.len() && rank[e] < rank[c]);
        assert(rank[e] >= 0);
        assert(a[e] == nodes[e]);
        lemma_run_same(nodes, a, rank, n, e, d);
    }
}

/// A node that takes in a child at its own place takes over that child's children and keeps all others;
/// it keeps its place, and its layers where it has any.
pub proof fn a_folded_child_leaves_its_children(nodes: Seq<SNode>, n: int, ci: int, v: int)
    requires
        0 <= n < nodes.len(),
        0 <= ci < nodes[n].children.len(),
        0 <= nodes[n].children[ci] < nodes.len(),
        nodes[n].children.no_duplicates(),
        !nodes[nodes[n].children[ci]].children.contains(nodes[n].children[ci]),
    ensures
        ({
            let c = nodes[n].children[ci];
            let r = folded(nodes, n, ci);
            &&& r.len() == nodes.len()
            &&& r[n].p == nodes[n].p
            &&& nodes[n].fixed.valid() ==> r[n].fixed == nodes[n].fixed
            &&& !nodes[n].fixed.valid() && nodes[c].fixed.valid() ==> r[n].fixed == nodes[c].fixed
            &&& r[n].children.contains(v) <==> v != c && (nodes[n].children.contains(v) || nodes[c].children.contains(v))
            &&& r[n].children.len() == nodes[n].children.len() + nodes[c].children.len() - 1
        }),
{
    let c = nodes[n].children[ci];
    let (a, b) = (nodes[n].children, nodes[c].children);
    let all = a + b;
    let r = folded(nodes, n, ci)[n].children;
    assert(r == all.remove(ci));
    if r.contains(v) {
        let i = choose|i: int| 0 <= i < r.len() && r[i] == v;
        let j = if i < ci { i } else { i + 1 };
        assert(all[j] == v);
        if j < a.len() {
            assert(a[j] == v);
        } else {
            assert(b[j - a.len()] == v);
        }
    }
    if v != c && a.contains(v) {
        let j = choose|j: int| 0 <= j < a.len() && a[j] == v;
        let i = if j < ci { j } else { j - 1 };
        assert(r[i] == v);
    }
    if v != c && b.contains(v) {
        let j = choose|j: int| 0 <= j < b.len() && b[j] == v;
        assert(r[a.len() + j - 1] == v);
    }
}

} // verus!
